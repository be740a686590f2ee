//! Byte scanning: runs of a character class and searches for a mark.

use vstd::prelude::*;

verus! {

// The ASCII characters that the grammar gives a meaning to.
pub const TAB: u8 = 9;
pub const NEWLINE: u8 = 10;
pub const CARRIAGE_RETURN: u8 = 13;
pub const SPACE: u8 = 32;
pub const BANG: u8 = 33;
pub const HASH: u8 = 35;
pub const DOLLAR: u8 = 36;
pub const OPEN_PAREN: u8 = 40;
pub const CLOSE_PAREN: u8 = 41;
pub const STAR: u8 = 42;
pub const DASH: u8 = 45;
pub const DOT: u8 = 46;
pub const ZERO: u8 = 48;
pub const ONE: u8 = 49;
pub const NINE: u8 = 57;
pub const GREATER: u8 = 62;
pub const OPEN_BRACKET: u8 = 91;
pub const CLOSE_BRACKET: u8 = 93;
pub const BACKTICK: u8 = 96;

/// The character classes that the grammar skips over.
#[derive(Clone, Copy, Debug, PartialEq, Eq)]
pub enum Class {
    /// The header marker `#`.
    Hash,
    /// Space and tab.
    Blank,
    /// Space, tab, carriage return and newline.
    White,
    /// The decimal digits.
    Digit,
}

/// Whether byte `b` belongs to class `c`.
pub open spec fn in_class(c: Class, b: u8) -> bool {
    match c {
        Class::Hash => b == HASH,
        Class::Blank => b == SPACE || b == TAB,
        Class::White => b == SPACE || b == TAB || b == CARRIAGE_RETURN || b == NEWLINE,
        Class::Digit => ZERO <= b <= NINE,
    }
}

/// The end of the longest run of bytes of class `c` that starts at `from`.
pub open spec fn run_end(s: Seq<u8>, from: int, c: Class) -> int
    decreases s.len() - from,
{
    if 0 <= from < s.len() && in_class(c, s[from]) {
        run_end(s, from + 1, c)
    } else {
        from
    }
}

/// `run_end` stops at the first byte outside the class, or at the end of `s`.
pub proof fn lemma_run_end(s: Seq<u8>, from: int, c: Class)
    requires
        0 <= from <= s.len(),
    ensures
        from <= run_end(s, from, c) <= s.len(),
        forall|j: int| from <= j < run_end(s, from, c) ==> in_class(c, #[trigger] s[j]),
        run_end(s, from, c) < s.len() ==> !in_class(c, s[run_end(s, from, c)]),
    decreases s.len() - from,
{
    if from < s.len() && in_class(c, s[from]) {
        lemma_run_end(s, from + 1, c);
    }
}

/// A position that ends a run of class `c` from `from` is `run_end`: there
/// is one such position only.
pub proof fn lemma_run_end_is(s: Seq<u8>, from: int, c: Class, end: int)
    requires
        0 <= from <= end <= s.len(),
        forall|j: int| from <= j < end ==> in_class(c, #[trigger] s[j]),
        end < s.len() ==> !in_class(c, s[end]),
    ensures
        run_end(s, from, c) == end,
    decreases end - from,
{
    if from < end {
        lemma_run_end_is(s, from + 1, c, end);
    }
}

/// A run behind a text `a` ends where it ends behind nothing, moved by
/// the length of `a`.
pub proof fn lemma_run_end_behind(a: Seq<u8>, b: Seq<u8>, from: int, c: Class)
    requires
        0 <= from <= b.len(),
    ensures
        run_end(a + b, a.len() + from, c) == a.len() + run_end(b, from, c),
{
    lemma_run_end(b, from, c);
    let end = run_end(b, from, c);
    let s = a + b;
    assert forall|j: int| a.len() + from <= j < a.len() + end implies in_class(
        c,
        #[trigger] s[j],
    ) by {
        assert(s[j] == b[j - a.len()]);
    }
    if end < b.len() {
        assert(s[a.len() + end] == b[end]);
    }
    lemma_run_end_is(s, a.len() + from, c, a.len() + end);
}

/// Tests whether `b` belongs to class `c`.
pub fn is_in_class(c: Class, b: u8) -> (r: bool)
    ensures
        r == in_class(c, b),
{
    match c {
        Class::Hash => b == HASH,
        Class::Blank => b == SPACE || b == TAB,
        Class::White => b == SPACE || b == TAB || b == CARRIAGE_RETURN || b == NEWLINE,
        Class::Digit => ZERO <= b && b <= NINE,
    }
}

/// Skips the bytes of class `c` that start at `from`.
pub fn skip_class(bytes: &[u8], from: usize, c: Class) -> (end: usize)
    requires
        from <= bytes@.len(),
    ensures
        end == run_end(bytes@, from as int, c),
        from <= end <= bytes@.len() <= usize::MAX,
{
    let mut end: usize = from;
    while end < bytes.len() && is_in_class(c, bytes[end])
        invariant
            from <= end <= bytes@.len(),
            run_end(bytes@, from as int, c) == run_end(bytes@, end as int, c),
        decreases bytes@.len() - end,
    {
        end += 1;
    }
    end
}

/// Whether `n` copies of byte `b` stand in `s` from position `at` on.
pub open spec fn run_at(s: Seq<u8>, at: int, b: u8, n: int) -> bool {
    0 <= at && at + n <= s.len() && forall|j: int| at <= j < at + n ==> s[j] == b
}

/// The first position at or after `from` where `n` copies of `b` stand.
pub open spec fn find_run(s: Seq<u8>, from: int, b: u8, n: int) -> Option<int>
    decreases s.len() - from,
{
    if from < 0 || from + n > s.len() {
        None
    } else if run_at(s, from, b, n) {
        Some(from)
    } else {
        find_run(s, from + 1, b, n)
    }
}

/// `find_run` gives the first occurrence, and `None` only where there is none.
pub proof fn lemma_find_run(s: Seq<u8>, from: int, b: u8, n: int)
    requires
        0 <= from,
        0 <= n,
    ensures
        match find_run(s, from, b, n) {
            Some(at) => from <= at && run_at(s, at, b, n) && forall|j: int|
                from <= j < at ==> !run_at(s, j, b, n),
            None => forall|j: int| from <= j ==> !run_at(s, j, b, n),
        },
    decreases s.len() - from,
{
    if from + n <= s.len() && !run_at(s, from, b, n) {
        lemma_find_run(s, from + 1, b, n);
    }
}

/// A position where the run stands, with none before it from `from` on, is
/// what `find_run` gives.
pub proof fn lemma_find_run_is(s: Seq<u8>, from: int, b: u8, n: int, at: int)
    requires
        0 <= from <= at,
        0 <= n,
        run_at(s, at, b, n),
        forall|j: int| from <= j < at ==> !run_at(s, j, b, n),
    ensures
        find_run(s, from, b, n) == Some(at),
    decreases at - from,
{
    if from < at {
        lemma_find_run_is(s, from + 1, b, n, at);
    }
}

/// No run of `n` copies of `b` stands in a piece of `s` in which none
/// begins.
pub proof fn lemma_piece_without_run(s: Seq<u8>, start: int, end: int, b: u8, n: int)
    requires
        0 <= start <= end <= s.len(),
        1 <= n,
        forall|j: int| start <= j < end ==> !run_at(s, j, b, n),
        run_at(s, end, b, n),
    ensures
        forall|j: int| !run_at(s.subrange(start, end), j, b, n),
{
    let piece = s.subrange(start, end);
    assert forall|j: int| !run_at(piece, j, b, n) by {
        if run_at(piece, j, b, n) {
            assert forall|i: int| start + j <= i < start + j + n implies s[i] == b by {
                assert(piece[i - start] == s[i]);
            }
            assert(run_at(s, start + j, b, n));
        }
    }
}

/// Tests whether `n` copies of `b` stand in `bytes` from `at` on.
pub fn has_run_at(bytes: &[u8], at: usize, b: u8, n: usize) -> (r: bool)
    ensures
        r == run_at(bytes@, at as int, b, n as int),
        bytes@.len() <= usize::MAX,
{
    if at > bytes.len() || n > bytes.len() - at {
        return false;
    }
    let mut k: usize = 0;
    while k < n
        invariant
            k <= n,
            at + n <= bytes@.len() <= usize::MAX,
            forall|j: int| at <= j < at + k ==> bytes@[j] == b,
        decreases n - k,
    {
        if bytes[at + k] != b {
            return false;
        }
        k += 1;
    }
    true
}

/// Searches `bytes` from `from` on for the first `n` copies of `b`.
pub fn search_run(bytes: &[u8], from: usize, b: u8, n: usize) -> (r: Option<usize>)
    ensures
        match r {
            Some(at) => find_run(bytes@, from as int, b, n as int) == Some(at as int),
            None => find_run(bytes@, from as int, b, n as int) is None,
        },
        bytes@.len() <= usize::MAX,
{
    if from > bytes.len() || n > bytes.len() - from {
        return None;
    }
    if n == 0 {
        return Some(from);
    }
    let last: usize = bytes.len() - n;
    let mut at: usize = from;
    while at <= last
        invariant
            from <= at <= last + 1,
            n >= 1,
            last + n == bytes@.len() <= usize::MAX,
            find_run(bytes@, from as int, b, n as int) == find_run(bytes@, at as int, b, n as int),
        decreases last + 1 - at,
    {
        if has_run_at(bytes, at, b, n) {
            return Some(at);
        }
        at += 1;
    }
    None
}

} // verus!
