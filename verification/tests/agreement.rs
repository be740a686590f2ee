//! The scanners against nom's parsers of the same name and purpose.

use nom::bytes::complete::{tag, take_until};
use nom::character::complete::{digit0, multispace0, space0};
use nom::error::Error;
use nom::multi::many0_count;
use nom::IResult;
use parser::scan::{has_run_at, search_run, skip_class, Class};

const SAMPLES: [&str; 24] = [
    "",
    " ",
    "\t \tx",
    " \r\n\t\n  x \n",
    "\u{b}\u{c} x",
    "\u{a0}x",
    "\u{2003}x",
    "x  ",
    "0123456789:",
    "42. item",
    "٣. item",
    "/0",
    "###### title",
    "#\u{ff03}#",
    "# #",
    "``` code ```",
    "a``b```c````",
    "``",
    "$$ $$$",
    "*a**b***",
    "line\nnext\n",
    "no newline",
    "é```è",
    "---",
];

fn length_of(result: IResult<&str, &str>) -> usize {
    match result {
        Ok((_, taken)) => taken.len(),
        Err(_) => panic!("a parser that never fails has failed"),
    }
}

#[test]
fn white_space_as_multispace0() {
    for sample in SAMPLES {
        let taken = length_of(multispace0::<&str, Error<&str>>(sample));
        assert_eq!(skip_class(sample.as_bytes(), 0, Class::White), taken, "{:?}", sample);
    }
}

#[test]
fn blanks_as_space0() {
    for sample in SAMPLES {
        let taken = length_of(space0::<&str, Error<&str>>(sample));
        assert_eq!(skip_class(sample.as_bytes(), 0, Class::Blank), taken, "{:?}", sample);
    }
}

#[test]
fn digits_as_digit0() {
    for sample in SAMPLES {
        let taken = length_of(digit0::<&str, Error<&str>>(sample));
        assert_eq!(skip_class(sample.as_bytes(), 0, Class::Digit), taken, "{:?}", sample);
    }
}

#[test]
fn hashes_as_many_tags() {
    for sample in SAMPLES {
        let counted: IResult<&str, usize> = many0_count(tag("#"))(sample);
        let taken = counted.unwrap().1;
        assert_eq!(skip_class(sample.as_bytes(), 0, Class::Hash), taken, "{:?}", sample);
    }
}

#[test]
fn search_as_take_until() {
    let marks: [(&str, u8, usize); 6] = [
        ("\n", b'\n', 1),
        ("`", b'`', 1),
        ("```", b'`', 3),
        ("$$$", b'$', 3),
        ("*", b'*', 1),
        ("**", b'*', 2),
    ];
    for sample in SAMPLES {
        for (mark, byte, count) in marks {
            let found: IResult<&str, &str> = take_until(mark)(sample);
            let expected = found.ok().map(|(_, before)| before.len());
            assert_eq!(
                search_run(sample.as_bytes(), 0, byte, count),
                expected,
                "{:?} in {:?}",
                mark,
                sample
            );
        }
    }
}

#[test]
fn run_as_tag() {
    let marks: [(&str, u8, usize); 5] =
        [("#", b'#', 1), ("---", b'-', 3), ("```", b'`', 3), ("$$", b'$', 2), ("**", b'*', 2)];
    for sample in SAMPLES {
        for (mark, byte, count) in marks {
            let found: IResult<&str, &str> = tag(mark)(sample);
            assert_eq!(
                has_run_at(sample.as_bytes(), 0, byte, count),
                found.is_ok(),
                "{:?} in {:?}",
                mark,
                sample
            );
        }
    }
}
