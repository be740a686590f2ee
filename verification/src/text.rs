//! Cutting pieces out of a string at byte positions.
//!
//! A `&str` may only be split between two characters. In UTF-8 an ASCII byte
//! is a whole character, so a position beside one is always such a place.

use crate::scan::{in_class, lemma_run_end, run_at, run_end, Class};
use vstd::prelude::*;
use vstd::string::*;
use vstd::utf8::*;

verus! {

/// A position in `s` that is one of its ends or has an ASCII byte beside it.
pub open spec fn edge(s: Seq<u8>, i: int) -> bool {
    0 <= i <= s.len() && (i == 0 || i == s.len() || s[i] < 0x80 || s[i - 1] < 0x80)
}

/// In valid UTF-8 every edge lies between two characters.
pub proof fn lemma_edge_is_char_boundary(s: Seq<u8>, i: int)
    requires
        valid_utf8(s),
        edge(s, i),
    ensures
        is_char_boundary(s, i),
{
    if i == 0 || i == s.len() {
        is_char_boundary_start_end_of_seq(s);
    } else if s[i] < 0x80 {
        is_char_boundary_iff_not_is_continuation_byte(s, i);
    } else {
        is_char_boundary_iff_not_is_continuation_byte(s, i - 1);
        valid_utf8_split(s, i - 1);
        let from_ascii = s.subrange(i - 1, s.len() as int);
        assert(from_ascii[0] == s[i - 1]);
        assert(valid_utf8(from_ascii));
        let after = pop_first_scalar(from_ascii);
        assert(after =~= s.subrange(i, s.len() as int));
        assert(valid_utf8(after));
        is_char_boundary_start_end_of_seq(after);
        is_char_boundary_iff_not_is_continuation_byte(after, 0);
        assert(after[0] == s[i]);
        is_char_boundary_iff_not_is_continuation_byte(s, i);
    }
}

/// The end of a run of a class that starts at an edge is an edge: the bytes
/// of every class are ASCII.
pub proof fn lemma_edge_after_run(s: Seq<u8>, from: int, c: Class)
    requires
        edge(s, from),
    ensures
        edge(s, run_end(s, from, c)),
{
    lemma_run_end(s, from, c);
    let end = run_end(s, from, c);
    if end > from {
        assert(in_class(c, s[end - 1]));
    }
}

/// Where a run of an ASCII byte stands, every position from its start to
/// its end is an edge.
pub proof fn lemma_edge_in_run(s: Seq<u8>, at: int, b: u8, n: int, i: int)
    requires
        run_at(s, at, b, n),
        b < 0x80,
        n >= 1,
        at <= i <= at + n,
    ensures
        edge(s, i),
{
    if i < at + n {
        assert(s[i] == b);
    } else {
        assert(s[i - 1] == b);
    }
}

/// The part of `text` from byte `from` up to byte `to`.
pub fn cut<'a>(text: &'a str, from: usize, to: usize) -> (piece: &'a str)
    requires
        from <= to,
        edge(text.spec_bytes(), from as int),
        edge(text.spec_bytes(), to as int),
    ensures
        piece.spec_bytes() == text.spec_bytes().subrange(from as int, to as int),
{
    let ghost s = text.spec_bytes();
    proof {
        encode_utf8_valid_utf8(text@);
        lemma_edge_is_char_boundary(s, to as int);
    }
    let (head, _) = text.split_at(to);
    proof {
        encode_utf8_valid_utf8(head@);
        assert(edge(head.spec_bytes(), from as int)) by {
            if 0 < from < to {
                assert(head.spec_bytes()[from as int] == s[from as int]);
                assert(head.spec_bytes()[from - 1] == s[from - 1]);
            }
        }
        lemma_edge_is_char_boundary(head.spec_bytes(), from as int);
    }
    let (_, piece) = head.split_at(from);
    assert(piece.spec_bytes() =~= s.subrange(from as int, to as int));
    piece
}

/// The part of `text` from byte `from` on.
pub fn tail<'a>(text: &'a str, from: usize) -> (rest: &'a str)
    requires
        edge(text.spec_bytes(), from as int),
    ensures
        rest.spec_bytes() == text.spec_bytes().skip(from as int),
{
    proof {
        encode_utf8_valid_utf8(text@);
        lemma_edge_is_char_boundary(text.spec_bytes(), from as int);
    }
    let (_, rest) = text.split_at(from);
    rest
}

} // verus!
