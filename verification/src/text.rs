//! Moving between `str`/`String` and sequences of characters.

use crate::chars::{blank, is_blank};
use vstd::prelude::*;

verus! {

/// The characters of `s`, in order.
pub(crate) fn chars_of(s: &str) -> (v: Vec<char>)
    ensures
        v@ == s@,
{
    let mut v: Vec<char> = Vec::new();
    for c in it: s.chars()
        invariant
            it.seq() == s@,
            v@ == s@.take(it.index()),
    {
        v.push(c);
    }
    v
}

/// Appends one character to a string.
///
/// Trusted: stands for `String::push`, which std documents as appending the
/// given character to the end of the string.
#[verifier::external_body]
fn push_char(s: &mut String, c: char)
    ensures
        final(s)@ == old(s)@.push(c),
{
    s.push(c)
}

/// The string whose characters are `v[from..to]`.
pub(crate) fn string_of(v: &Vec<char>, from: usize, to: usize) -> (s: String)
    requires
        from <= to <= v.len(),
    ensures
        s@ == v@.subrange(from as int, to as int),
{
    let mut s = String::new();
    let mut i: usize = from;
    while i < to
        invariant
            from <= i <= to <= v.len(),
            s@ == v@.subrange(from as int, i as int),
        decreases to - i,
    {
        push_char(&mut s, v[i]);
        i += 1;
        assert(v@.subrange(from as int, i as int) == v@.subrange(from as int, i - 1).push(
            v@[i - 1],
        ));
    }
    s
}

/// `t` without its leading white space.
pub open spec fn trim_start(t: Seq<char>) -> Seq<char>
    decreases t.len(),
{
    if t.len() > 0 && is_blank(t[0]) {
        trim_start(t.drop_first())
    } else {
        t
    }
}

/// `t` without its trailing white space.
pub open spec fn trim_end(t: Seq<char>) -> Seq<char>
    decreases t.len(),
{
    if t.len() > 0 && is_blank(t.last()) {
        trim_end(t.drop_last())
    } else {
        t
    }
}

/// `t` without its leading and trailing white space.
pub open spec fn trim(t: Seq<char>) -> Seq<char> {
    trim_end(trim_start(t))
}

/// What is left of `t` does not start with white space.
proof fn trim_start_is_tight(t: Seq<char>)
    ensures
        trim_start(t).len() == 0 || !is_blank(trim_start(t)[0]),
    decreases t.len(),
{
    if t.len() > 0 && is_blank(t[0]) {
        trim_start_is_tight(t.drop_first());
    }
}

/// What is left of `t` does not end with white space, and starts as `t`
/// does.
proof fn trim_end_is_tight(t: Seq<char>)
    ensures
        trim_end(t).len() == 0 || (!is_blank(trim_end(t).last()) && trim_end(t)[0] == t[0]),
    decreases t.len(),
{
    if t.len() > 0 && is_blank(t.last()) {
        trim_end_is_tight(t.drop_last());
    }
}

/// What trimming leaves neither starts nor ends with white space.
pub proof fn trim_is_tight(t: Seq<char>)
    ensures
        trim(t).len() == 0 || (!is_blank(trim(t)[0]) && !is_blank(trim(t).last())),
{
    trim_start_is_tight(t);
    trim_end_is_tight(trim_start(t));
}

/// Whether `t` holds a character that is no white space.
pub open spec fn has_text(t: Seq<char>) -> bool {
    exists|k: int| 0 <= k < t.len() && !is_blank(#[trigger] t[k])
}

/// Trimming at the start keeps a character that is no white space.
proof fn trim_start_keeps_text(t: Seq<char>, k: int)
    requires
        0 <= k < t.len(),
        !is_blank(t[k]),
    ensures
        has_text(trim_start(t)),
    decreases t.len(),
{
    if is_blank(t[0]) {
        assert(t.drop_first()[k - 1] == t[k]);
        trim_start_keeps_text(t.drop_first(), k - 1);
    }
}

/// Trimming at the end keeps a character that is no white space.
proof fn trim_end_keeps_text(t: Seq<char>, k: int)
    requires
        0 <= k < t.len(),
        !is_blank(t[k]),
    ensures
        has_text(trim_end(t)),
    decreases t.len(),
{
    if is_blank(t.last()) {
        assert(t.drop_last()[k] == t[k]);
        trim_end_keeps_text(t.drop_last(), k);
    }
}

/// Trimming leaves a text that holds more than white space non-empty.
pub proof fn trim_keeps_text(t: Seq<char>)
    requires
        has_text(t),
    ensures
        has_text(trim(t)),
        trim(t).len() > 0,
{
    let k = choose|k: int| 0 <= k < t.len() && !is_blank(#[trigger] t[k]);
    trim_start_keeps_text(t, k);
    let u = trim_start(t);
    let j = choose|j: int| 0 <= j < u.len() && !is_blank(#[trigger] u[j]);
    trim_end_keeps_text(u, j);
}

/// The characters of `v` without leading and trailing white space, as a string.
pub(crate) fn trimmed(v: &Vec<char>) -> (s: String)
    ensures
        s@ == trim(v@),
{
    let n = v.len();
    let mut a: usize = 0;
    assert(v@.subrange(0, n as int) == v@);
    while a < n && blank(v[a])
        invariant
            a <= n == v.len(),
            trim_start(v@) == trim_start(v@.subrange(a as int, n as int)),
        decreases n - a,
    {
        assert(v@.subrange(a as int, n as int).drop_first() == v@.subrange(a + 1, n as int));
        a += 1;
    }
    let mut b: usize = n;
    while b > a && blank(v[b - 1])
        invariant
            a <= b <= n == v.len(),
            trim_end(v@.subrange(a as int, n as int)) == trim_end(v@.subrange(a as int, b as int)),
        decreases b,
    {
        assert(v@.subrange(a as int, b as int).drop_last() == v@.subrange(a as int, b - 1));
        b -= 1;
    }
    string_of(v, a, b)
}

} // verus!
