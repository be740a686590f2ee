use parser::text::{cut, tail};

#[test]
fn cut_gives_the_piece_between_two_positions() {
    assert_eq!(cut("# Title\n", 2, 7), "Title");
    assert_eq!(cut("# Title\n", 0, 0), "");
    assert_eq!(cut("# Title\n", 8, 8), "");
    assert_eq!(cut("# Title\n", 0, 8), "# Title\n");
    assert_eq!(cut("*ß*", 1, 3), "ß");
}

#[test]
fn tail_gives_the_rest_from_a_position() {
    assert_eq!(tail("# Title\n", 7), "\n");
    assert_eq!(tail("# Title\n", 8), "");
    assert_eq!(tail("# Title\n", 0), "# Title\n");
    assert_eq!(tail("*ß*é", 4), "é");
}
