//! Character classes of the expression language and operator precedence.

use vstd::prelude::*;

verus! {

/// An ASCII decimal digit.
pub open spec fn is_digit(c: char) -> bool {
    '0' <= c <= '9'
}

/// A character that belongs to a run of literal text in an infix expression:
/// a digit, a decimal point, or a plain space.
pub open spec fn is_run_char(c: char) -> bool {
    is_digit(c) || c == ' ' || c == '.'
}

/// A character a numeric token is made of: a digit or a decimal point.
pub open spec fn is_numeral_char(c: char) -> bool {
    is_digit(c) || c == '.'
}

/// Whether every character of `t` is a digit or a decimal point.
pub open spec fn is_numeral(t: Seq<char>) -> bool {
    forall|k: int| 0 <= k < t.len() ==> is_numeral_char(#[trigger] t[k])
}

/// ASCII white space: space, tab, line feed, form feed, carriage return.
pub open spec fn is_ascii_blank(c: char) -> bool {
    c == ' ' || c == '\t' || c == '\n' || c == '\x0C' || c == '\r'
}

/// White space as Unicode defines it (`White_Space`).
pub open spec fn is_blank(c: char) -> bool {
    ('\u{9}' <= c <= '\u{D}') || c == ' ' || c == '\u{85}' || c == '\u{A0}' || c == '\u{1680}' || (
    '\u{2000}' <= c <= '\u{200A}') || c == '\u{2028}' || c == '\u{2029}' || c == '\u{202F}' || c
        == '\u{205F}' || c == '\u{3000}'
}

/// One of the five binary operators.
pub open spec fn is_operator(c: char) -> bool {
    c == '+' || c == '-' || c == '*' || c == '/' || c == '^'
}

/// The precedence class of a character: 3 for `^`, 2 for `*` and `/`, 1 for
/// `+` and `-`, and 0 for everything else, brackets included.
pub open spec fn priority_of(c: char) -> u8 {
    if c == '^' {
        3
    } else if c == '*' || c == '/' {
        2
    } else if c == '+' || c == '-' {
        1
    } else {
        0
    }
}

/// Whether `c` is an ASCII decimal digit.
pub fn digit(c: char) -> (b: bool)
    ensures
        b == is_digit(c),
{
    '0' <= c && c <= '9'
}

/// Whether `c` belongs to a run of literal text.
pub fn run_char(c: char) -> (b: bool)
    ensures
        b == is_run_char(c),
{
    digit(c) || c == ' ' || c == '.'
}

/// Whether `c` is a digit or a decimal point.
pub fn numeral_char(c: char) -> (b: bool)
    ensures
        b == is_numeral_char(c),
{
    digit(c) || c == '.'
}

/// Whether `c` is ASCII white space.
pub fn ascii_blank(c: char) -> (b: bool)
    ensures
        b == is_ascii_blank(c),
{
    c == ' ' || c == '\t' || c == '\n' || c == '\x0C' || c == '\r'
}

/// Whether `c` is white space.
pub fn blank(c: char) -> (b: bool)
    ensures
        b == is_blank(c),
{
    ('\u{9}' <= c && c <= '\u{D}') || c == ' ' || c == '\u{85}' || c == '\u{A0}' || c == '\u{1680}'
        || ('\u{2000}' <= c && c <= '\u{200A}') || c == '\u{2028}' || c == '\u{2029}' || c
        == '\u{202F}' || c == '\u{205F}' || c == '\u{3000}'
}

/// Whether `c` is one of the five binary operators.
pub fn operator(c: char) -> (b: bool)
    ensures
        b == is_operator(c),
{
    c == '+' || c == '-' || c == '*' || c == '/' || c == '^'
}

/// The precedence class of an operator character.
pub fn priority(ch: &char) -> (p: u8)
    ensures
        p == priority_of(*ch),
        p <= 3,
        p > 0 <==> is_operator(*ch),
{
    if *ch == '^' {
        3
    } else if *ch == '*' || *ch == '/' {
        2
    } else if *ch == '+' || *ch == '-' {
        1
    } else {
        0
    }
}

/// Precedence is strictly layered: `^` binds tighter than `*` and `/`, which
/// bind alike and tighter than `+` and `-`, which bind alike and tighter than
/// any character that is not an operator.
pub proof fn priority_is_layered(other: char)
    requires
        !is_operator(other),
    ensures
        priority_of('^') > priority_of('*'),
        priority_of('*') == priority_of('/'),
        priority_of('/') > priority_of('+'),
        priority_of('+') == priority_of('-'),
        priority_of('-') > priority_of(other),
{
}

} // verus!
