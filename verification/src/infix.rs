//! Rewriting an infix expression into postfix notation.
//!
//! The expression is read once from left to right. Literal text goes straight
//! to the output; operators and opening brackets wait on a stack until an
//! operator that binds no tighter, a closing bracket, or the end of the input
//! sends them to the output.

use crate::chars::{
    ascii_blank, is_ascii_blank, is_blank, is_numeral, is_numeral_char, is_operator, is_run_char,
    operator, priority, priority_of, run_char,
};
use crate::error::CalcError;
use crate::text::{chars_of, trim, trim_end, trim_is_tight, trim_start, trimmed};
use vstd::prelude::*;

verus! {

/// The length of the run of literal text (digits, decimal points and spaces)
/// that starts at position `i` of `s`.
pub open spec fn run_len(s: Seq<char>, i: int) -> nat
    decreases s.len() - i,
{
    if 0 <= i < s.len() && is_run_char(s[i]) {
        1 + run_len(s, i + 1)
    } else {
        0
    }
}

/// The characters of the run of literal text that starts at position `i` of
/// `s`, with its spaces left out.
pub open spec fn run_text(s: Seq<char>, i: int) -> Seq<char>
    decreases s.len() - i,
{
    if 0 <= i < s.len() && is_run_char(s[i]) {
        if s[i] == ' ' {
            run_text(s, i + 1)
        } else {
            seq![s[i]] + run_text(s, i + 1)
        }
    } else {
        Seq::empty()
    }
}

/// What is written when every element of `items` is popped, the last one
/// first: each element followed by one space.
pub open spec fn spill(items: Seq<char>) -> Seq<char>
    decreases items.len(),
{
    if items.len() == 0 {
        Seq::empty()
    } else {
        spill(items.drop_first()) + seq![items[0], ' ']
    }
}

/// How many elements of `stack`, counted from the bottom, stay when the
/// operator `op` arrives: everything above them binds at least as tightly as
/// `op`, and the topmost of them, if there is one, binds less tightly.
pub open spec fn kept_under(stack: Seq<char>, op: char) -> nat
    decreases stack.len(),
{
    if stack.len() > 0 && priority_of(op) <= priority_of(stack.last()) {
        kept_under(stack.drop_last(), op)
    } else {
        stack.len()
    }
}

/// The position of the topmost `(` of `stack`, if it holds one.
pub open spec fn pending_bracket(stack: Seq<char>) -> Option<int>
    decreases stack.len(),
{
    if stack.len() == 0 {
        None
    } else if stack.last() == '(' {
        Some(stack.len() - 1)
    } else {
        pending_bracket(stack.drop_last())
    }
}

/// The state of a conversion between two steps.
pub struct Machine {
    /// The output written so far.
    pub out: Seq<char>,
    /// The waiting operators and opening brackets, the most recent one last.
    pub stack: Seq<char>,
    /// Whether the most recent bracket, if any, was a closing one.
    pub closed: bool,
}

impl Machine {
    /// The state before anything is read.
    pub open spec fn start() -> Machine {
        Machine { out: Seq::empty(), stack: Seq::empty(), closed: true }
    }

    /// After a run of literal text: the text, then one separating space.
    pub open spec fn literal(self, text: Seq<char>) -> Machine {
        Machine { out: self.out + text + seq![' '], ..self }
    }

    /// After the operator `op`: the waiting elements that bind at least as
    /// tightly leave the stack for the output, then `op` waits.
    pub open spec fn operator(self, op: char) -> Machine {
        let k = kept_under(self.stack, op) as int;
        Machine {
            out: self.out + spill(self.stack.skip(k)),
            stack: self.stack.take(k).push(op),
            closed: self.closed,
        }
    }

    /// After `(`.
    pub open spec fn open(self) -> Machine {
        Machine { out: self.out, stack: self.stack.push('('), closed: false }
    }

    /// After `)`: what waits above the topmost `(` leaves for the output and
    /// the bracket is dropped. `None` if no `(` waits.
    pub open spec fn close(self) -> Option<Machine> {
        match pending_bracket(self.stack) {
            None => None,
            Some(k) => Some(
                Machine {
                    out: self.out + spill(self.stack.skip(k + 1)),
                    stack: self.stack.take(k),
                    closed: true,
                },
            ),
        }
    }

    /// The result once reading has stopped: what still waits is written out,
    /// and the output is trimmed.
    pub open spec fn finish(self) -> Result<Seq<char>, CalcError> {
        let text = trim(self.out + spill(self.stack));
        if !self.closed {
            Err(CalcError::CloseBracketMissing)
        } else if text.len() == 0 {
            Err(CalcError::EmptyOrInvalidExpression)
        } else {
            Ok(text)
        }
    }
}

/// A run of literal text that starts inside `s` ends inside `s`.
pub proof fn run_stays_inside(s: Seq<char>, i: int)
    requires
        0 <= i <= s.len(),
    ensures
        i + run_len(s, i) <= s.len(),
    decreases s.len() - i,
{
    if i < s.len() && is_run_char(s[i]) {
        run_stays_inside(s, i + 1);
    }
}

/// The state in which reading `s` from position `i` on stops, starting in
/// state `m`, or the error that ends it early.
///
/// Each step takes a run of literal text, possibly empty, writes it out with
/// one space behind it, and goes on with the character that ended the run.
pub open spec fn scan(s: Seq<char>, i: int, m: Machine) -> Result<Machine, CalcError>
    decreases s.len() - i, 1int,
    via scan_terminates
{
    if !(0 <= i < s.len()) {
        Ok(m)
    } else {
        resume(s, i + run_len(s, i), m.literal(run_text(s, i)))
    }
}

/// Reading on in state `m` from the character at position `j` of `s`, where
/// a run of literal text has just ended.
///
/// White space is skipped, an operator or a bracket changes the stack, and
/// any other character stops the reading for good, as the end of `s` does.
pub open spec fn resume(s: Seq<char>, j: int, m: Machine) -> Result<Machine, CalcError>
    decreases s.len() - j, 0int,
{
    if !(0 <= j < s.len()) {
        Ok(m)
    } else if is_ascii_blank(s[j]) {
        scan(s, j + 1, m)
    } else if is_operator(s[j]) {
        scan(s, j + 1, m.operator(s[j]))
    } else if s[j] == '(' {
        scan(s, j + 1, m.open())
    } else if s[j] == ')' {
        match m.close() {
            Some(m2) => scan(s, j + 1, m2),
            None => Err(CalcError::OpenBracketMissing),
        }
    } else {
        Ok(m)
    }
}

#[via_fn]
proof fn scan_terminates(s: Seq<char>, i: int, m: Machine) {
    if 0 <= i < s.len() {
        run_stays_inside(s, i);
    }
}

/// The postfix form of the infix expression `s`, or the reason it has none.
pub open spec fn postfix_of(s: Seq<char>) -> Result<Seq<char>, CalcError> {
    match scan(s, 0, Machine::start()) {
        Ok(m) => m.finish(),
        Err(e) => Err(e),
    }
}

/// A postfix text is never empty, and neither starts nor ends with white
/// space.
pub proof fn postfix_is_trimmed(s: Seq<char>)
    ensures
        postfix_of(s) matches Ok(p) ==> p.len() > 0 && !is_blank(p[0]) && !is_blank(p.last()),
{
    if let Ok(m) = scan(s, 0, Machine::start()) {
        trim_is_tight(m.out + spill(m.stack));
    }
}

/// Whether nothing but operators and opening brackets waits on `stack`.
pub open spec fn holds_symbols(stack: Seq<char>) -> bool {
    forall|k: int| 0 <= k < stack.len() ==> is_operator(#[trigger] stack[k]) || stack[k] == '('
}

/// An arriving operator keeps no more than the stack holds.
pub proof fn kept_under_is_inside(stack: Seq<char>, op: char)
    ensures
        kept_under(stack, op) <= stack.len(),
    decreases stack.len(),
{
    if stack.len() > 0 && priority_of(op) <= priority_of(stack.last()) {
        kept_under_is_inside(stack.drop_last(), op);
    }
}

/// The topmost opening bracket is an element of the stack.
pub proof fn pending_bracket_is_inside(stack: Seq<char>)
    ensures
        pending_bracket(stack) matches Some(k) ==> 0 <= k < stack.len() && stack[k] == '(',
    decreases stack.len(),
{
    if stack.len() > 0 && stack.last() != '(' {
        pending_bracket_is_inside(stack.drop_last());
    }
}

/// Nothing but operators and opening brackets ever waits on the stack:
/// reading on from position `i` of `s` in a state of which this holds stops
/// in such a state.
pub proof fn stack_keeps_symbols(s: Seq<char>, i: int, m: Machine)
    requires
        holds_symbols(m.stack),
    ensures
        scan(s, i, m) matches Ok(last) ==> holds_symbols(last.stack),
    decreases s.len() - i, 1int,
{
    if 0 <= i < s.len() {
        run_stays_inside(s, i);
        stack_keeps_symbols_on(s, i + run_len(s, i), m.literal(run_text(s, i)));
    }
}

proof fn stack_keeps_symbols_on(s: Seq<char>, j: int, m: Machine)
    requires
        holds_symbols(m.stack),
        0 <= j <= s.len(),
    ensures
        resume(s, j, m) matches Ok(last) ==> holds_symbols(last.stack),
    decreases s.len() - j, 0int,
{
    if j < s.len() {
        if is_ascii_blank(s[j]) {
            stack_keeps_symbols(s, j + 1, m);
        } else if is_operator(s[j]) {
            kept_under_is_inside(m.stack, s[j]);
            stack_keeps_symbols(s, j + 1, m.operator(s[j]));
        } else if s[j] == '(' {
            stack_keeps_symbols(s, j + 1, m.open());
        } else if s[j] == ')' {
            pending_bracket_is_inside(m.stack);
            if let Some(m2) = m.close() {
                stack_keeps_symbols(s, j + 1, m2);
            }
        }
    }
}

/// Whether `d` is a literal: a non-empty stretch of digits and decimal
/// points.
pub open spec fn is_literal(d: Seq<char>) -> bool {
    d.len() > 0 && is_numeral(d)
}

/// A stretch of digits and decimal points that is not continued is one run,
/// and its text is the stretch itself.
pub proof fn literal_run(s: Seq<char>, i: int, n: int)
    requires
        0 <= i,
        0 <= n,
        i + n <= s.len(),
        forall|k: int| i <= k < i + n ==> is_numeral_char(#[trigger] s[k]),
        i + n == s.len() || !is_run_char(s[i + n]),
    ensures
        run_len(s, i) == n,
        run_text(s, i) == s.subrange(i, i + n),
    decreases n,
{
    if n == 0 {
        assert(s.subrange(i, i) == Seq::<char>::empty());
    } else {
        literal_run(s, i + 1, n - 1);
        assert(is_numeral_char(s[i]));
        assert(s.subrange(i, i + n) == seq![s[i]] + s.subrange(i + 1, i + n));
    }
}

/// Reading a literal `d` that stands at position `i` of `s` and is not
/// continued writes `d` and a space, and goes on behind it.
pub proof fn literal_step(s: Seq<char>, i: int, d: Seq<char>, m: Machine)
    requires
        is_literal(d),
        0 <= i,
        i + d.len() <= s.len(),
        s.subrange(i, i + d.len()) == d,
        i + d.len() == s.len() || !is_run_char(s[i + d.len()]),
    ensures
        scan(s, i, m) == resume(s, i + d.len(), m.literal(d)),
{
    let n = d.len() as int;
    assert forall|k: int| i <= k < i + n implies is_numeral_char(#[trigger] s[k]) by {
        assert(s.subrange(i, i + n)[k - i] == s[k]);
        assert(s[k] == d[k - i]);
    }
    literal_run(s, i, n);
}

/// The parts of `x a y b z` stand where they are put.
proof fn chain_in_place(x: Seq<char>, a: char, y: Seq<char>, b: char, z: Seq<char>)
    ensures
        ({
            let s = x + seq![a] + y + seq![b] + z;
            let p = x.len() as int + 1;
            let q = p + y.len() as int + 1;
            &&& s.len() == q + z.len()
            &&& s.subrange(0, x.len() as int) == x
            &&& s[p - 1] == a
            &&& s.subrange(p, p + y.len()) == y
            &&& s[q - 1] == b
            &&& s.subrange(q, q + z.len()) == z
        }),
{
    let s = x + seq![a] + y + seq![b] + z;
    let p = x.len() as int + 1;
    let q = p + y.len() as int + 1;
    assert(s.subrange(0, x.len() as int) =~= x);
    assert(s.subrange(p, p + y.len()) =~= y);
    assert(s.subrange(q, q + z.len()) =~= z);
}

/// Reading `x a y` from the start: `x` and `y` are written, `a` waits.
proof fn chain_start(s: Seq<char>, x: Seq<char>, a: char, y: Seq<char>)
    requires
        is_literal(x),
        is_literal(y),
        is_operator(a),
        x.len() + 1 + y.len() <= s.len(),
        s.subrange(0, x.len() as int) == x,
        s[x.len() as int] == a,
        s.subrange(x.len() as int + 1, x.len() as int + 1 + y.len()) == y,
        x.len() + 1 + y.len() == s.len() || !is_run_char(s[x.len() as int + 1 + y.len()]),
    ensures
        scan(s, 0, Machine::start()) == resume(
            s,
            x.len() as int + 1 + y.len(),
            Machine { out: x + seq![' '] + y + seq![' '], stack: seq![a], closed: true },
        ),
{
    let m0 = Machine::start();
    let m1 = Machine { out: x + seq![' '], stack: seq![a], closed: true };
    literal_step(s, 0, x, m0);
    assert(m0.literal(x).operator(a) == m1) by {
        let l = m0.literal(x);
        assert(l.out == x + seq![' ']);
        assert(l.stack.skip(0) == Seq::<char>::empty());
        assert(l.out + spill(l.stack.skip(0)) == l.out);
        assert(l.stack.take(0).push(a) == seq![a]);
    }
    literal_step(s, x.len() as int + 1, y, m1);
}

/// Of two operators in a row the first is applied first unless the second
/// binds tighter: for literals `x`, `y`, `z` and operators `a`, `b` where `b`
/// binds no tighter than `a`, the expression `x a y b z` becomes
/// `x y a z b`. Operators of one precedence class so group to the left, `^`
/// as well as the others.
pub proof fn groups_to_the_left(x: Seq<char>, a: char, y: Seq<char>, b: char, z: Seq<char>)
    requires
        is_literal(x),
        is_literal(y),
        is_literal(z),
        is_operator(a),
        is_operator(b),
        priority_of(b) <= priority_of(a),
    ensures
        postfix_of(x + seq![a] + y + seq![b] + z) == Ok::<Seq<char>, CalcError>(
            x + seq![' '] + y + seq![' ', a, ' '] + z + seq![' ', b],
        ),
{
    let s = x + seq![a] + y + seq![b] + z;
    let q = x.len() as int + 1 + y.len() as int + 1;
    let m1 = Machine { out: x + seq![' '] + y + seq![' '], stack: seq![a], closed: true };
    let m2 = Machine { out: m1.out + seq![a, ' '], stack: seq![b], closed: true };
    let m3 = m2.literal(z);
    chain_in_place(x, a, y, b, z);
    chain_start(s, x, a, y);
    assert(m1.operator(b) == m2) by {
        reveal_with_fuel(kept_under, 2);
        reveal_with_fuel(spill, 2);
        assert(m1.stack.drop_last() == Seq::<char>::empty());
        assert(kept_under(m1.stack, b) == 0);
        assert(m1.stack.skip(0) == seq![a]);
        assert(seq![a].drop_first() == Seq::<char>::empty());
        assert(spill(seq![a]) == seq![a, ' ']);
        assert(m1.stack.take(0).push(b) == seq![b]);
    }
    literal_step(s, q, z, m2);
    assert(scan(s, 0, Machine::start()) == Ok::<Machine, CalcError>(m3));
    let text = x + seq![' '] + y + seq![' ', a, ' '] + z + seq![' ', b];
    assert(m3.out + spill(m3.stack) == text.push(' ')) by {
        reveal_with_fuel(spill, 2);
        assert(seq![b].drop_first() == Seq::<char>::empty());
        assert(spill(seq![b]) == seq![b, ' ']);
        assert(m3.out + seq![b, ' '] =~= text.push(' '));
    }
    trimmed_line(text, x[0]);
}

/// Of two operators in a row the second is applied first where it binds
/// tighter: for literals `x`, `y`, `z` and operators `a`, `b` where `b` binds
/// tighter than `a`, the expression `x a y b z` becomes `x y z b a`.
pub proof fn tighter_operator_goes_first(
    x: Seq<char>,
    a: char,
    y: Seq<char>,
    b: char,
    z: Seq<char>,
)
    requires
        is_literal(x),
        is_literal(y),
        is_literal(z),
        is_operator(a),
        is_operator(b),
        priority_of(b) > priority_of(a),
    ensures
        postfix_of(x + seq![a] + y + seq![b] + z) == Ok::<Seq<char>, CalcError>(
            x + seq![' '] + y + seq![' '] + z + seq![' ', b, ' ', a],
        ),
{
    let s = x + seq![a] + y + seq![b] + z;
    let q = x.len() as int + 1 + y.len() as int + 1;
    let m1 = Machine { out: x + seq![' '] + y + seq![' '], stack: seq![a], closed: true };
    let m2 = Machine { out: m1.out, stack: seq![a, b], closed: true };
    let m3 = m2.literal(z);
    chain_in_place(x, a, y, b, z);
    chain_start(s, x, a, y);
    assert(m1.operator(b) == m2) by {
        assert(kept_under(m1.stack, b) == 1);
        assert(m1.stack.skip(1) == Seq::<char>::empty());
        assert(m1.out + spill(m1.stack.skip(1)) == m1.out);
        assert(m1.stack.take(1).push(b) == seq![a, b]);
    }
    literal_step(s, q, z, m2);
    assert(scan(s, 0, Machine::start()) == Ok::<Machine, CalcError>(m3));
    let text = x + seq![' '] + y + seq![' '] + z + seq![' ', b, ' ', a];
    assert(m3.out + spill(m3.stack) == text.push(' ')) by {
        reveal_with_fuel(spill, 3);
        assert(seq![a, b].drop_first() == seq![b]);
        assert(seq![b].drop_first() == Seq::<char>::empty());
        assert(spill(seq![a, b]) == seq![b, ' ', a, ' ']);
        assert(m3.out + seq![b, ' ', a, ' '] =~= text.push(' '));
    }
    trimmed_line(text, x[0]);
}

/// A text that starts with a digit or decimal point and ends with an
/// operator is what trimming leaves of it and one space behind it.
proof fn trimmed_line(text: Seq<char>, first: char)
    requires
        text.len() > 0,
        text[0] == first,
        is_numeral_char(first),
        is_operator(text.last()),
    ensures
        trim(text.push(' ')) == text,
{
    let whole = text.push(' ');
    reveal_with_fuel(trim_end, 2);
    assert(whole[0] == first);
    assert(trim_start(whole) == whole);
    assert(whole.drop_last() == text);
}

/// Pops every element of `stack` above the lowest `keep`, writing each to
/// `out` followed by a space.
fn pop_down_to(stack: &mut Vec<char>, out: &mut Vec<char>, keep: usize)
    requires
        keep <= old(stack).len(),
    ensures
        final(stack)@ == old(stack)@.take(keep as int),
        final(out)@ == old(out)@ + spill(old(stack)@.skip(keep as int)),
{
    let ghost stack0 = stack@;
    let ghost out0 = out@;
    assert(stack0.skip(stack0.len() as int) == Seq::<char>::empty());
    assert(stack0.take(stack0.len() as int) == stack0);
    while stack.len() > keep
        invariant
            keep <= stack.len() <= stack0.len(),
            stack@ == stack0.take(stack.len() as int),
            out@ == out0 + spill(stack0.skip(stack.len() as int)),
        decreases stack.len(),
    {
        let ghost len = stack.len() as int;
        let top = stack.pop().unwrap();
        out.push(top);
        out.push(' ');
        proof {
            let rest = stack0.skip(len - 1);
            assert(rest.drop_first() == stack0.skip(len));
            assert(rest[0] == top);
            assert(spill(rest) == spill(stack0.skip(len)) + seq![top, ' ']);
            assert(out@ == out0 + spill(rest));
            assert(stack@ == stack0.take(len - 1));
        }
    }
}

/// The number of elements that stay on `stack` when the operator `op` arrives.
fn count_kept(stack: &Vec<char>, op: char) -> (k: usize)
    ensures
        k == kept_under(stack@, op),
        k <= stack.len(),
{
    let mut k: usize = stack.len();
    assert(stack@.take(k as int) == stack@);
    while k > 0 && priority(&op) <= priority(&stack[k - 1])
        invariant
            k <= stack.len(),
            kept_under(stack@, op) == kept_under(stack@.take(k as int), op),
        decreases k,
    {
        assert(stack@.take(k as int).drop_last() == stack@.take(k - 1));
        k -= 1;
    }
    k
}

/// The position of the topmost `(` of `stack`.
fn find_bracket(stack: &Vec<char>) -> (r: Option<usize>)
    ensures
        match pending_bracket(stack@) {
            None => r is None,
            Some(k) => r == Some(k as usize) && 0 <= k < stack.len(),
        },
{
    let mut k: usize = stack.len();
    assert(stack@.take(k as int) == stack@);
    while k > 0 && stack[k - 1] != '('
        invariant
            k <= stack.len(),
            pending_bracket(stack@) == pending_bracket(stack@.take(k as int)),
        decreases k,
    {
        assert(stack@.take(k as int).drop_last() == stack@.take(k - 1));
        k -= 1;
    }
    if k == 0 {
        None
    } else {
        Some(k - 1)
    }
}

/// Converts an infix expression into postfix notation.
///
/// The result is `Ok` with the postfix text exactly when `postfix_of` gives
/// one; otherwise it is the message of the error that `postfix_of` names.
pub fn convert(expr: &str) -> (r: Result<String, &'static str>)
    ensures
        match postfix_of(expr@) {
            Ok(p) => r matches Ok(v) && v@ == p,
            Err(e) => r matches Err(msg) && msg@ == e.text(),
        },
{
    let s = chars_of(expr);
    let n = s.len();
    let mut closed = true;
    let mut stack: Vec<char> = Vec::new();
    let mut out: Vec<char> = Vec::new();
    let mut i: usize = 0;
    let ghost whole = scan(s@, 0, Machine::start());
    while i < n
        invariant
            i <= n == s.len(),
            s@ == expr@,
            whole == scan(s@, 0, Machine::start()),
            scan(s@, i as int, Machine { out: out@, stack: stack@, closed }) == whole,
        decreases n - i,
    {
        let ghost i0 = i as int;
        let ghost m = Machine { out: out@, stack: stack@, closed };
        while i < n && run_char(s[i])
            invariant
                i0 <= i <= n == s.len(),
                i + run_len(s@, i as int) == i0 + run_len(s@, i0),
                out@ + run_text(s@, i as int) == m.out + run_text(s@, i0),
            decreases n - i,
        {
            if s[i] != ' ' {
                out.push(s[i]);
                assert(out@ + run_text(s@, i + 1) == (out@.drop_last() + seq![s@[i as int]])
                    + run_text(s@, i + 1));
                assert(out@.drop_last() + run_text(s@, i as int) == (out@.drop_last() + seq![
                    s@[i as int],
                ]) + run_text(s@, i + 1));
            }
            i += 1;
        }
        out.push(' ');
        let ghost m1 = Machine { out: out@, stack: stack@, closed };
        proof {
            assert(run_len(s@, i as int) == 0);
            assert(run_text(s@, i as int) == Seq::<char>::empty());
            assert(out@.drop_last() + Seq::<char>::empty() == out@.drop_last());
            assert(out@ == m.out + run_text(s@, i0) + seq![' ']);
            assert(m1 == m.literal(run_text(s@, i0)));
            assert(i == i0 + run_len(s@, i0));
            assert(whole == resume(s@, i as int, m1));
        }
        if i < n {
            let c = s[i];
            if ascii_blank(c) {
                i += 1;
                assert(whole == scan(s@, i as int, m1));
            } else if operator(c) {
                let k = count_kept(&stack, c);
                pop_down_to(&mut stack, &mut out, k);
                stack.push(c);
                i += 1;
                assert(Machine { out: out@, stack: stack@, closed } == m1.operator(c));
                assert(whole == scan(s@, i as int, m1.operator(c)));
            } else if c == '(' {
                stack.push(c);
                closed = false;
                i += 1;
            } else if c == ')' {
                match find_bracket(&stack) {
                    None => {
                        return Err(CalcError::OpenBracketMissing.message());
                    },
                    Some(k) => {
                        pop_down_to(&mut stack, &mut out, k + 1);
                        stack.pop();
                        closed = true;
                        i += 1;
                        assert(m1.stack.take(k + 1).drop_last() == m1.stack.take(k as int));
                        assert(Some(Machine { out: out@, stack: stack@, closed }) == m1.close());
                    },
                }
            } else {
                i = n;
            }
        }
    }
    let ghost last = Machine { out: out@, stack: stack@, closed };
    assert(whole == Ok::<Machine, CalcError>(last));
    assert(stack@.skip(0) == stack@);
    pop_down_to(&mut stack, &mut out, 0);
    let text = trimmed(&out);
    if !closed {
        Err(CalcError::CloseBracketMissing.message())
    } else if text.unicode_len() == 0 {
        Err(CalcError::EmptyOrInvalidExpression.message())
    } else {
        Ok(text)
    }
}

} // verus!
