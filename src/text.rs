//! Small helpers for building the textual renderings of the library's types.
use vstd::prelude::*;

verus! {

/// The character of a decimal digit.
pub open spec fn digit_char(d: nat) -> char {
    ((d + 48) as u8) as char
}

/// The decimal digits of a natural number, most significant first.
pub open spec fn nat_text(n: nat) -> Seq<char>
    decreases n,
{
    if n < 10 {
        seq![digit_char(n)]
    } else {
        nat_text(n / 10).push(digit_char(n % 10))
    }
}

/// The decimal text of an integer, with a leading minus sign when negative.
pub open spec fn int_text(i: int) -> Seq<char> {
    if i < 0 {
        seq!['-'] + nat_text((-i) as nat)
    } else {
        nat_text(i as nat)
    }
}

/// The characters of row `y`, cells `0..n`, where cell `(x, y)` is drawn as `f(x, y)`.
pub open spec fn row_text(f: spec_fn(int, int) -> char, y: int, n: int) -> Seq<char>
    decreases n,
{
    if n <= 0 {
        seq![]
    } else {
        row_text(f, y, n - 1).push(f(n - 1, y))
    }
}

/// Rows `0..n`, `w` cells each, every row ended by a newline.
pub open spec fn cells_text(f: spec_fn(int, int) -> char, w: int, n: int) -> Seq<char>
    decreases n,
{
    if n <= 0 {
        seq![]
    } else {
        cells_text(f, w, n - 1) + row_text(f, n - 1, w).push('\n')
    }
}

/// The byte of a newline.
pub const NEWLINE: u8 = 10;
/// The byte of a carriage return.
pub const CARRIAGE_RETURN: u8 = 13;

/// The line `b[s..e]`; when it was ended by a newline, a carriage return just
/// before that newline is not part of it.
pub open spec fn line_of(b: Seq<u8>, s: int, e: int, newline: bool) -> Seq<u8> {
    if newline && e > s && b[e - 1] == CARRIAGE_RETURN {
        b.subrange(s, e - 1)
    } else {
        b.subrange(s, e)
    }
}

/// The lines of `b` from the line that starts at `s`, scanning from `i`.
pub open spec fn lines_from(b: Seq<u8>, i: int, s: int) -> Seq<Seq<u8>>
    decreases b.len() - i,
{
    if i >= b.len() {
        if s < b.len() {
            seq![line_of(b, s, b.len() as int, false)]
        } else {
            seq![]
        }
    } else if b[i] == NEWLINE {
        seq![line_of(b, s, i, true)] + lines_from(b, i + 1, i + 1)
    } else {
        lines_from(b, i + 1, s)
    }
}

/// The lines of a text: split at each newline, a carriage return before a
/// newline dropped, and no empty line after a final newline.
pub open spec fn text_lines(b: Seq<u8>) -> Seq<Seq<u8>> {
    lines_from(b, 0, 0)
}

/// Relies on `String::push`: the character is appended at the end.
#[verifier::external_body]
pub(crate) fn push_char(s: &mut String, c: char)
    ensures
        final(s)@ == old(s)@.push(c),
{
    s.push(c);
}

/// Appends the decimal digits of `n`.
pub fn push_nat(s: &mut String, n: u64)
    ensures
        final(s)@ == old(s)@ + nat_text(n as nat),
    decreases n,
{
    if n >= 10 {
        push_nat(s, n / 10);
    }
    let d: u8 = (n % 10) as u8;
    push_char(s, (d + 48) as char);
    assert(s@ =~= old(s)@ + nat_text(n as nat));
}

/// Appends the decimal text of `i`.
pub fn push_int(s: &mut String, i: i64)
    ensures
        final(s)@ == old(s)@ + int_text(i as int),
{
    if i < 0 {
        push_char(s, '-');
        let m: i128 = -(i as i128);
        push_nat(s, m as u64);
        assert(s@ =~= old(s)@ + int_text(i as int));
    } else {
        push_nat(s, i as u64);
    }
}

} // verus!
