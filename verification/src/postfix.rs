//! Reading a postfix expression: its tokens, and what a stack evaluator does
//! with each of them.
//!
//! The arithmetic on the values is left to the caller. What is decided here
//! depends only on the text and on how many values the caller's stack holds.

use crate::chars::{blank, is_blank, is_numeral, is_numeral_char, numeral_char};
use crate::error::CalcError;
use crate::text::{chars_of, string_of};
use vstd::prelude::*;

verus! {

/// The length of the word (run of characters that are not white space) that
/// starts at position `i` of `s`.
pub open spec fn word_len(s: Seq<char>, i: int) -> nat
    decreases s.len() - i,
{
    if 0 <= i < s.len() && !is_blank(s[i]) {
        1 + word_len(s, i + 1)
    } else {
        0
    }
}

/// A word that starts inside `s` ends inside `s`.
pub proof fn word_stays_inside(s: Seq<char>, i: int)
    requires
        0 <= i <= s.len(),
    ensures
        i + word_len(s, i) <= s.len(),
    decreases s.len() - i,
{
    if i < s.len() && !is_blank(s[i]) {
        word_stays_inside(s, i + 1);
    }
}

/// The words of `s` from position `i` on, where `i` is not inside a word.
pub open spec fn tokens_from(s: Seq<char>, i: int) -> Seq<Seq<char>>
    decreases s.len() - i,
    via tokens_from_terminates
{
    if !(0 <= i < s.len()) {
        Seq::empty()
    } else if is_blank(s[i]) {
        tokens_from(s, i + 1)
    } else {
        let j = i + 1 + word_len(s, i + 1);
        seq![s.subrange(i, j)] + tokens_from(s, j)
    }
}

#[via_fn]
proof fn tokens_from_terminates(s: Seq<char>, i: int) {
    if 0 <= i < s.len() {
        word_stays_inside(s, i + 1);
    }
}

/// The tokens of `s`: its maximal runs of characters that are not white
/// space, in order.
pub open spec fn tokens_of(s: Seq<char>) -> Seq<Seq<char>> {
    tokens_from(s, 0)
}

/// Cuts a postfix expression into its tokens.
pub fn tokens(postfix: &str) -> (r: Vec<String>)
    ensures
        r@.len() == tokens_of(postfix@).len(),
        forall|k: int| 0 <= k < r@.len() ==> (#[trigger] r@[k])@ == tokens_of(postfix@)[k],
{
    let s = chars_of(postfix);
    let n = s.len();
    let mut r: Vec<String> = Vec::new();
    let mut i: usize = 0;
    let ghost mut done: Seq<Seq<char>> = Seq::empty();
    assert(done + tokens_from(s@, 0) == tokens_of(s@));
    while i < n
        invariant
            i <= n == s.len(),
            s@ == postfix@,
            done.len() == r@.len(),
            forall|k: int| 0 <= k < r@.len() ==> (#[trigger] r@[k])@ == done[k],
            done + tokens_from(s@, i as int) == tokens_of(s@),
        decreases n - i,
    {
        if blank(s[i]) {
            i += 1;
        } else {
            let start = i;
            while i < n && !blank(s[i])
                invariant
                    start <= i <= n == s.len(),
                    i + word_len(s@, i as int) == start + word_len(s@, start as int),
                decreases n - i,
            {
                i += 1;
            }
            let word = string_of(&s, start, i);
            proof {
                assert(word_len(s@, i as int) == 0);
                assert(done + (seq![word@] + tokens_from(s@, i as int)) == done.push(word@)
                    + tokens_from(s@, i as int));
                done = done.push(word@);
            }
            r.push(word);
        }
    }
    assert(done + Seq::<Seq<char>>::empty() == done);
    r
}

/// What a token is to the evaluator.
#[derive(Clone, Copy, Debug, PartialEq, Eq, Structural)]
pub enum TokenKind {
    /// A decimal number: digits with at most one decimal point among them.
    Number,
    /// Made of digits and decimal points only, but no decimal number.
    Malformed,
    /// Anything else: an operator token, known by its first character.
    Symbol(char),
}

/// The number of decimal points in `t`.
pub open spec fn points(t: Seq<char>) -> nat
    decreases t.len(),
{
    if t.len() == 0 {
        0
    } else if t.last() == '.' {
        points(t.drop_last()) + 1
    } else {
        points(t.drop_last())
    }
}

/// Whether `t` is a decimal number: made of digits and decimal points only,
/// with at most one decimal point and at least one digit.
pub open spec fn is_decimal(t: Seq<char>) -> bool {
    is_numeral(t) && points(t) <= 1 && points(t) < t.len()
}

/// The kind of the token `t`.
pub open spec fn kind_of(t: Seq<char>) -> TokenKind {
    if !is_numeral(t) {
        TokenKind::Symbol(t[0])
    } else if is_decimal(t) {
        TokenKind::Number
    } else {
        TokenKind::Malformed
    }
}

/// Tells numbers, malformed numbers and operator tokens apart.
pub fn classify(token: &str) -> (k: TokenKind)
    ensures
        k == kind_of(token@),
{
    let t = chars_of(token);
    let mut i: usize = 0;
    let mut seen: usize = 0;
    assert(t@.take(0) == Seq::<char>::empty());
    while i < t.len()
        invariant
            i <= t.len(),
            t@ == token@,
            forall|k: int| 0 <= k < i ==> is_numeral_char(#[trigger] t@[k]),
            seen == points(t@.take(i as int)),
            seen <= i,
        decreases t.len() - i,
    {
        if !numeral_char(t[i]) {
            return TokenKind::Symbol(t[0]);
        }
        assert(t@.take(i + 1).drop_last() == t@.take(i as int));
        if t[i] == '.' {
            seen += 1;
        }
        i += 1;
    }
    assert(t@.take(i as int) == t@);
    if seen <= 1 && seen < t.len() {
        TokenKind::Number
    } else {
        TokenKind::Malformed
    }
}

/// A binary operator of the calculator.
#[derive(Clone, Copy, Debug, PartialEq, Eq, Structural)]
pub enum Operator {
    Add,
    Subtract,
    Multiply,
    Divide,
    Power,
}

/// What the evaluator does for one token.
#[derive(Clone, Copy, Debug, PartialEq, Eq, Structural)]
pub enum Action {
    /// Read the token as a number and push it.
    Push,
    /// Pop the right operand, then the left one, and push the result of the
    /// operator applied to them.
    Apply(Operator),
    /// Pop two values and push nothing: the symbol is no operator.
    Discard,
}

/// The operator that the character `c` stands for, if any.
pub open spec fn operator_of(c: char) -> Option<Operator> {
    if c == '+' {
        Some(Operator::Add)
    } else if c == '-' {
        Some(Operator::Subtract)
    } else if c == '*' {
        Some(Operator::Multiply)
    } else if c == '/' {
        Some(Operator::Divide)
    } else if c == '^' {
        Some(Operator::Power)
    } else {
        None
    }
}

/// What a token of kind `kind` asks for when the stack holds `depth` values.
pub open spec fn action_for(depth: nat, kind: TokenKind) -> Result<Action, CalcError> {
    match kind {
        TokenKind::Number => Ok(Action::Push),
        TokenKind::Malformed => Err(CalcError::InvalidNumber),
        TokenKind::Symbol(c) => if depth < 2 {
            Err(CalcError::MissingOperand)
        } else {
            match operator_of(c) {
                Some(op) => Ok(Action::Apply(op)),
                None => Ok(Action::Discard),
            }
        },
    }
}

/// The number of values on the stack after `action` was carried out on a
/// stack of `depth` values.
pub open spec fn depth_after(depth: int, action: Action) -> int {
    match action {
        Action::Push => depth + 1,
        Action::Apply(_) => depth - 1,
        Action::Discard => depth - 2,
    }
}

/// The stack after `action` was carried out for `token`, where `read` gives
/// the value of a literal and `apply` the result of an operator on a left and
/// a right operand.
pub open spec fn perform<V>(
    action: Action,
    token: Seq<char>,
    stack: Seq<V>,
    read: spec_fn(Seq<char>) -> V,
    apply: spec_fn(Operator, V, V) -> V,
) -> Seq<V> {
    match action {
        Action::Push => stack.push(read(token)),
        Action::Apply(op) => stack.drop_last().drop_last().push(
            apply(op, stack[stack.len() - 2], stack[stack.len() - 1]),
        ),
        Action::Discard => stack.drop_last().drop_last(),
    }
}

/// The stack after every token of `tokens` had its action carried out in
/// turn, starting from `stack`, or the error of the first token that is a
/// malformed number or finds too few values.
pub open spec fn stack_after<V>(
    tokens: Seq<Seq<char>>,
    stack: Seq<V>,
    read: spec_fn(Seq<char>) -> V,
    apply: spec_fn(Operator, V, V) -> V,
) -> Result<Seq<V>, CalcError>
    decreases tokens.len(),
{
    if tokens.len() == 0 {
        Ok(stack)
    } else {
        match action_for(stack.len(), kind_of(tokens[0])) {
            Err(e) => Err(e),
            Ok(action) => stack_after(
                tokens.drop_first(),
                perform(action, tokens[0], stack, read, apply),
                read,
                apply,
            ),
        }
    }
}

/// Decides what the evaluator does for a token of kind `kind` while its stack
/// holds `depth` values. A symbol needs two values, whether or not it is an
/// operator; a number needs none, and a malformed number is an error.
pub fn step(depth: usize, kind: TokenKind) -> (r: Result<Action, CalcError>)
    ensures
        r == action_for(depth as nat, kind),
        r matches Ok(a) ==> depth_after(depth as int, a) >= 0,
{
    match kind {
        TokenKind::Number => Ok(Action::Push),
        TokenKind::Malformed => Err(CalcError::InvalidNumber),
        TokenKind::Symbol(c) => {
            if depth < 2 {
                Err(CalcError::MissingOperand)
            } else if c == '+' {
                Ok(Action::Apply(Operator::Add))
            } else if c == '-' {
                Ok(Action::Apply(Operator::Subtract))
            } else if c == '*' {
                Ok(Action::Apply(Operator::Multiply))
            } else if c == '/' {
                Ok(Action::Apply(Operator::Divide))
            } else if c == '^' {
                Ok(Action::Apply(Operator::Power))
            } else {
                Ok(Action::Discard)
            }
        },
    }
}

/// Decides how an evaluation ends once every token is consumed: with the
/// value on top of the stack, unless the stack holds none.
pub fn finish(depth: usize) -> (r: Result<(), CalcError>)
    ensures
        r == (if depth == 0 {
            Err::<(), CalcError>(CalcError::MissingOperand)
        } else {
            Ok(())
        }),
{
    if depth == 0 {
        Err(CalcError::MissingOperand)
    } else {
        Ok(())
    }
}

} // verus!
