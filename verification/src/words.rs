//! How the tokens of a text relate to the tokens of its parts.

use crate::chars::is_blank;
use crate::postfix::{tokens_from, tokens_of, word_len, word_stays_inside};
use crate::text::{trim, trim_end, trim_start};
use vstd::prelude::*;

verus! {

/// A word does not reach over white space.
pub proof fn word_stops_at_blank(t: Seq<char>, k: int, q: int)
    requires
        0 <= k <= q < t.len(),
        is_blank(t[q]),
    ensures
        k + word_len(t, k) <= q,
    decreases q - k,
{
    if k < q && !is_blank(t[k]) {
        word_stops_at_blank(t, k + 1, q);
    }
}

/// A word that ends before the end of `t` is the same word in `t + x`.
pub proof fn word_in_longer_text(t: Seq<char>, x: Seq<char>, k: int)
    requires
        0 <= k,
        k + word_len(t, k) < t.len(),
    ensures
        word_len(t + x, k) == word_len(t, k),
    decreases t.len() - k,
{
    if !is_blank(t[k]) {
        assert((t + x)[k] == t[k]);
        word_in_longer_text(t, x, k + 1);
    } else {
        assert((t + x)[k] == t[k]);
    }
}

/// A word of `x` is the same word behind any prefix.
pub proof fn word_behind_prefix(p: Seq<char>, x: Seq<char>, k: int)
    requires
        0 <= k,
    ensures
        word_len(p + x, p.len() + k) == word_len(x, k),
    decreases x.len() - k,
{
    if k < x.len() {
        assert((p + x)[p.len() + k] == x[k]);
        if !is_blank(x[k]) {
            word_behind_prefix(p, x, k + 1);
        }
    }
}

/// The tokens of `x` are the same behind any prefix.
pub proof fn tokens_behind_prefix(p: Seq<char>, x: Seq<char>, i: int)
    requires
        0 <= i,
    ensures
        tokens_from(p + x, p.len() + i) == tokens_from(x, i),
    decreases x.len() - i,
{
    if i < x.len() {
        assert((p + x)[p.len() + i] == x[i]);
        if is_blank(x[i]) {
            tokens_behind_prefix(p, x, i + 1);
        } else {
            let j = i + 1 + word_len(x, i + 1);
            word_stays_inside(x, i + 1);
            word_behind_prefix(p, x, i + 1);
            tokens_behind_prefix(p, x, j);
            assert((p + x).subrange(p.len() + i, p.len() + j) == x.subrange(i, j));
        }
    }
}

/// What follows a text that ends in white space adds its own tokens.
pub proof fn tokens_before_suffix(t: Seq<char>, x: Seq<char>, i: int)
    requires
        0 <= i <= t.len(),
        t.len() == 0 || is_blank(t.last()),
    ensures
        tokens_from(t + x, i) == tokens_from(t, i) + tokens_from(x, 0),
    decreases t.len() - i,
{
    if i == t.len() {
        tokens_behind_prefix(t, x, 0);
        assert(Seq::<Seq<char>>::empty() + tokens_from(x, 0) == tokens_from(x, 0));
    } else {
        assert((t + x)[i] == t[i]);
        if is_blank(t[i]) {
            tokens_before_suffix(t, x, i + 1);
        } else {
            let j = i + 1 + word_len(t, i + 1);
            word_stops_at_blank(t, i + 1, t.len() - 1);
            word_in_longer_text(t, x, i + 1);
            tokens_before_suffix(t, x, j);
            assert((t + x).subrange(i, j) == t.subrange(i, j));
            assert(seq![t.subrange(i, j)] + (tokens_from(t, j) + tokens_from(x, 0)) == (seq![
                t.subrange(i, j),
            ] + tokens_from(t, j)) + tokens_from(x, 0));
        }
    }
}

/// The tokens of two texts in a row are the tokens of the first, then those
/// of the second, where the first ends in white space.
pub proof fn tokens_of_two_texts(t: Seq<char>, x: Seq<char>)
    requires
        t.len() == 0 || is_blank(t.last()),
    ensures
        tokens_of(t + x) == tokens_of(t) + tokens_of(x),
{
    tokens_before_suffix(t, x, 0);
}

/// A stretch without white space is one word.
pub proof fn solid_word(d: Seq<char>, k: int)
    requires
        0 <= k <= d.len(),
        forall|q: int| 0 <= q < d.len() ==> !is_blank(#[trigger] d[q]),
    ensures
        word_len(d, k) == d.len() - k,
    decreases d.len() - k,
{
    if k < d.len() {
        solid_word(d, k + 1);
    }
}

/// A text without white space is its own single token.
pub proof fn tokens_of_one_word(d: Seq<char>)
    requires
        d.len() > 0,
        forall|q: int| 0 <= q < d.len() ==> !is_blank(#[trigger] d[q]),
    ensures
        tokens_of(d) == seq![d],
{
    solid_word(d, 1);
    assert(d.subrange(0, d.len() as int) == d);
    assert(tokens_from(d, d.len() as int) == Seq::<Seq<char>>::empty());
    assert(seq![d] + Seq::<Seq<char>>::empty() == seq![d]);
}

/// White space at the end adds no token.
pub proof fn tokens_before_blank(t: Seq<char>, b: char)
    requires
        is_blank(b),
    ensures
        tokens_of(t.push(b)) == tokens_of(t),
{
    let u = t.push(b);
    assert(u == t + seq![b]);
    assert(tokens_of(seq![b]) == Seq::<Seq<char>>::empty()) by {
        reveal_with_fuel(tokens_from, 2);
    }
    if t.len() == 0 || is_blank(t.last()) {
        tokens_of_two_texts(t, seq![b]);
        assert(tokens_of(t) + Seq::<Seq<char>>::empty() == tokens_of(t));
    } else {
        tokens_with_blank_added(t, b, 0);
    }
}

/// White space at the end changes no token, from any position on.
proof fn tokens_with_blank_added(t: Seq<char>, b: char, i: int)
    requires
        0 <= i <= t.len(),
        is_blank(b),
    ensures
        tokens_from(t.push(b), i) == tokens_from(t, i),
    decreases t.len() - i,
{
    let u = t.push(b);
    if i == t.len() {
        reveal_with_fuel(tokens_from, 2);
        assert(u[i] == b);
    } else {
        assert(u[i] == t[i]);
        if is_blank(t[i]) {
            tokens_with_blank_added(t, b, i + 1);
        } else {
            let j = i + 1 + word_len(t, i + 1);
            word_stays_inside(t, i + 1);
            word_with_blank_added(t, b, i + 1);
            tokens_with_blank_added(t, b, j);
            assert(u.subrange(i, j) == t.subrange(i, j));
        }
    }
}

/// White space at the end changes no word.
proof fn word_with_blank_added(t: Seq<char>, b: char, k: int)
    requires
        0 <= k <= t.len(),
        is_blank(b),
    ensures
        word_len(t.push(b), k) == word_len(t, k),
    decreases t.len() - k,
{
    if k < t.len() {
        assert(t.push(b)[k] == t[k]);
        if !is_blank(t[k]) {
            word_with_blank_added(t, b, k + 1);
        }
    } else {
        assert(t.push(b)[k] == b);
    }
}

/// Trimming changes no token.
pub proof fn tokens_of_trimmed(t: Seq<char>)
    ensures
        tokens_of(trim(t)) == tokens_of(t),
{
    tokens_after_trim_start(t);
    tokens_after_trim_end(trim_start(t));
}

/// Trimming at the start changes no token.
proof fn tokens_after_trim_start(t: Seq<char>)
    ensures
        tokens_of(trim_start(t)) == tokens_of(t),
    decreases t.len(),
{
    if t.len() > 0 && is_blank(t[0]) {
        tokens_after_trim_start(t.drop_first());
        assert(seq![t[0]] + t.drop_first() == t);
        tokens_behind_prefix(seq![t[0]], t.drop_first(), 0);
    }
}

/// Trimming at the end changes no token.
proof fn tokens_after_trim_end(t: Seq<char>)
    ensures
        tokens_of(trim_end(t)) == tokens_of(t),
    decreases t.len(),
{
    if t.len() > 0 && is_blank(t.last()) {
        tokens_after_trim_end(t.drop_last());
        assert(t.drop_last().push(t.last()) == t);
        tokens_before_blank(t.drop_last(), t.last());
    }
}

} // verus!
