//! Fully bracketed expressions, and what their conversion writes.
//!
//! A fully bracketed expression is a number, or two such expressions with an
//! operator between them and a pair of brackets around them. Its conversion
//! never fails, and writes each operator after both of its operands.

use crate::chars::{
    is_blank, is_numeral, is_numeral_char, is_operator, is_run_char, priority_of,
};
use crate::error::CalcError;
use crate::infix::{
    kept_under, literal_step, pending_bracket, postfix_of, resume, run_len, run_text, scan, spill,
    Machine,
};
use crate::postfix::{
    action_for, is_decimal, kind_of, operator_of, perform, stack_after, tokens_of,
    Action, Operator, TokenKind,
};
use crate::text::{has_text, trim, trim_keeps_text};
use crate::words::{
    tokens_before_blank, tokens_of_one_word, tokens_of_trimmed, tokens_of_two_texts,
};
use vstd::prelude::*;

verus! {

/// A fully bracketed expression.
pub enum Expr {
    /// A literal, by its text.
    Number(Seq<char>),
    /// A left operand, an operator and a right operand.
    Binary(Box<Expr>, char, Box<Expr>),
}

impl Expr {
    /// Every number is a decimal number, and every operator is one of the
    /// five.
    pub open spec fn well_formed(self) -> bool
        decreases self,
    {
        match self {
            Expr::Number(d) => is_decimal(d),
            Expr::Binary(l, op, r) => is_operator(op) && l.well_formed() && r.well_formed(),
        }
    }

    /// The infix text: a literal as it is, anything else in brackets.
    pub open spec fn infix(self) -> Seq<char>
        decreases self,
    {
        match self {
            Expr::Number(d) => d,
            Expr::Binary(l, op, r) => seq!['('] + l.infix() + seq![op] + r.infix() + seq![')'],
        }
    }

    /// The tokens in postfix order: those of the left operand, those of the
    /// right operand, then the operator.
    pub open spec fn postorder(self) -> Seq<Seq<char>>
        decreases self,
    {
        match self {
            Expr::Number(d) => seq![d],
            Expr::Binary(l, op, r) => l.postorder() + r.postorder() + seq![seq![op]],
        }
    }

    /// The value of the expression, where `read` gives the value of a literal
    /// and `apply` the result of an operator on a left and a right operand.
    pub open spec fn value<V>(
        self,
        read: spec_fn(Seq<char>) -> V,
        apply: spec_fn(Operator, V, V) -> V,
    ) -> V
        decreases self,
    {
        match self {
            Expr::Number(d) => read(d),
            Expr::Binary(l, op, r) => apply(
                operator_of(op).unwrap(),
                l.value(read, apply),
                r.value(read, apply),
            ),
        }
    }

    /// The space that separates a bracketed operand from what follows it.
    pub open spec fn gap(self) -> Seq<char> {
        match self {
            Expr::Number(_) => Seq::empty(),
            Expr::Binary(_, _, _) => seq![' '],
        }
    }

    /// The postfix text as the conversion writes it: the left operand, the
    /// right operand, then the operator, with the spaces that the brackets
    /// and the ends of the literals leave behind.
    pub open spec fn written(self) -> Seq<char>
        decreases self,
    {
        match self {
            Expr::Number(d) => d + seq![' '],
            Expr::Binary(l, op, r) => seq![' '] + l.written() + l.gap() + r.written() + r.gap()
                + seq![op, ' '],
        }
    }
}

/// The infix text of a well-formed expression is not empty.
proof fn infix_is_not_empty(e: Expr)
    requires
        e.well_formed(),
    ensures
        e.infix().len() > 0,
{
    match e {
        Expr::Number(d) => {},
        Expr::Binary(l, op, r) => {},
    }
}

/// What is written for a well-formed expression holds a character that is no
/// white space.
proof fn written_has_text(e: Expr)
    requires
        e.well_formed(),
    ensures
        has_text(e.written()),
{
    let w = e.written();
    match e {
        Expr::Number(d) => {
            assert(is_numeral_char(d[0]));
            assert(w[0] == d[0]);
        },
        Expr::Binary(l, op, r) => {
            assert(w[w.len() - 2] == op);
        },
    }
}

/// Where the parts of a bracketed expression stand when the expression
/// stands at position `i` of `s`.
proof fn parts_in_place(l: Expr, op: char, r: Expr, s: Seq<char>, i: int)
    requires
        0 <= i,
        i + Expr::Binary(Box::new(l), op, Box::new(r)).infix().len() <= s.len(),
        s.subrange(i, i + Expr::Binary(Box::new(l), op, Box::new(r)).infix().len())
            == Expr::Binary(Box::new(l), op, Box::new(r)).infix(),
    ensures
        Expr::Binary(Box::new(l), op, Box::new(r)).infix().len() == l.infix().len()
            + r.infix().len() + 3,
        s[i] == '(',
        s.subrange(i + 1, i + 1 + l.infix().len()) == l.infix(),
        s[i + 1 + l.infix().len()] == op,
        s.subrange(i + 2 + l.infix().len(), i + 2 + l.infix().len() + r.infix().len())
            == r.infix(),
        s[i + 2 + l.infix().len() + r.infix().len()] == ')',
{
    let t = Expr::Binary(Box::new(l), op, Box::new(r)).infix();
    let n = t.len() as int;
    let nl = l.infix().len() as int;
    let nr = r.infix().len() as int;
    assert(n == nl + nr + 3);
    assert forall|k: int| 0 <= k < n implies s[i + k] == #[trigger] t[k] by {
        assert(s.subrange(i, i + n)[k] == s[i + k]);
    }
    assert(t[0] == '(');
    assert(t[1 + nl] == op);
    assert(t[n - 1] == ')');
    assert(s[i + 0] == t[0]);
    assert(s[i + (1 + nl)] == t[1 + nl]);
    assert(s[i + (n - 1)] == t[n - 1]);
    assert(s.subrange(i + 1, i + 1 + nl) =~= l.infix()) by {
        assert forall|k: int| 0 <= k < nl implies s.subrange(i + 1, i + 1 + nl)[k]
            == l.infix()[k] by {
            assert(t[1 + k] == l.infix()[k]);
            assert(s[i + (1 + k)] == t[1 + k]);
        }
    }
    assert(s.subrange(i + 2 + nl, i + 2 + nl + nr) =~= r.infix()) by {
        assert forall|k: int| 0 <= k < nr implies s.subrange(i + 2 + nl, i + 2 + nl + nr)[k]
            == r.infix()[k] by {
            assert(t[2 + nl + k] == r.infix()[k]);
            assert(s[i + (2 + nl + k)] == t[2 + nl + k]);
        }
    }
}

/// A character that is no literal text ends an empty run.
proof fn empty_run(s: Seq<char>, j: int, m: Machine)
    requires
        0 <= j < s.len(),
        !is_run_char(s[j]),
    ensures
        scan(s, j, m) == resume(s, j, Machine { out: m.out + seq![' '], ..m }),
{
    assert(run_len(s, j) == 0);
    assert(run_text(s, j) == Seq::<char>::empty());
    assert(m.out + Seq::<char>::empty() + seq![' '] == m.out + seq![' ']);
}

/// An operator that arrives on top of an opening bracket only joins the
/// stack.
proof fn operator_on_bracket(m: Machine, op: char)
    requires
        is_operator(op),
        m.stack.len() > 0,
        m.stack.last() == '(',
    ensures
        m.operator(op) == (Machine { stack: m.stack.push(op), ..m }),
{
    let full = m.stack.len() as int;
    assert(priority_of(op) > priority_of('('));
    assert(kept_under(m.stack, op) == full);
    assert(m.stack.skip(full) == Seq::<char>::empty());
    assert(m.out + Seq::<char>::empty() == m.out);
    assert(m.stack.take(full) == m.stack);
}

/// A closing bracket that arrives on an operator on top of an opening
/// bracket writes the operator and drops both.
proof fn close_on_operator(m: Machine, base: Seq<char>, op: char)
    requires
        is_operator(op),
        m.stack == base.push('(').push(op),
    ensures
        m.close() == Some(Machine { out: m.out + seq![op, ' '], stack: base, closed: true }),
{
    let depth = base.len() as int;
    assert(m.stack.drop_last() == base.push('('));
    reveal_with_fuel(pending_bracket, 2);
    assert(pending_bracket(m.stack) == Some(depth));
    assert(m.stack.skip(depth + 1) == seq![op]);
    assert(seq![op].drop_first() == Seq::<char>::empty());
    reveal_with_fuel(spill, 2);
    assert(spill(seq![op]) == seq![op, ' ']);
    assert(m.stack.take(depth) == base);
}

/// The outcome of reading, in state `m`, an expression that stands at
/// position `i` of `s`: the stack is as it was, the output has grown by what
/// the expression writes, and reading goes on behind the expression.
pub open spec fn outcome(e: Expr, s: Seq<char>, i: int, m: Machine) -> Result<
    Machine,
    CalcError,
> {
    let j = i + e.infix().len();
    let closed = m.closed || e is Binary;
    if j == s.len() {
        Ok(Machine { out: m.out + e.written(), stack: m.stack, closed })
    } else {
        resume(s, j, Machine { out: m.out + e.written() + e.gap(), stack: m.stack, closed })
    }
}

/// Reading a literal that stands at position `i` of `s`.
proof fn scan_number(d: Seq<char>, s: Seq<char>, i: int, m: Machine)
    requires
        Expr::Number(d).well_formed(),
        0 <= i,
        i + d.len() <= s.len(),
        s.subrange(i, i + d.len()) == d,
        i + d.len() == s.len() || !is_run_char(s[i + d.len()]),
    ensures
        scan(s, i, m) == outcome(Expr::Number(d), s, i, m),
{
    literal_step(s, i, d, m);
    assert(m.out + d + seq![' '] == m.out + (d + seq![' ']));
    assert(m.out + (d + seq![' ']) + Seq::<char>::empty() == m.out + (d + seq![' ']));
}

/// Reading a pair of brackets at positions `i` and `i + nl + nr + 2` of `s`
/// with the operator `op` between its operands, given what reading each
/// operand does: `wl` and `wr` is what they add to the output.
proof fn scan_bracket_pair(
    s: Seq<char>,
    i: int,
    nl: int,
    nr: int,
    op: char,
    m: Machine,
    wl: Seq<char>,
    wr: Seq<char>,
    cl: bool,
    cr: bool,
)
    requires
        0 <= i,
        nl > 0,
        nr > 0,
        i + nl + nr + 3 <= s.len(),
        s[i] == '(',
        s[i + 1 + nl] == op,
        s[i + 2 + nl + nr] == ')',
        is_operator(op),
        scan(
            s,
            i + 1,
            Machine { out: m.out + seq![' '], stack: m.stack.push('('), closed: false },
        ) == resume(
            s,
            i + 1 + nl,
            Machine { out: m.out + seq![' '] + wl, stack: m.stack.push('('), closed: cl },
        ),
        scan(
            s,
            i + 2 + nl,
            Machine {
                out: m.out + seq![' '] + wl,
                stack: m.stack.push('(').push(op),
                closed: cl,
            },
        ) == resume(
            s,
            i + 2 + nl + nr,
            Machine {
                out: m.out + seq![' '] + wl + wr,
                stack: m.stack.push('(').push(op),
                closed: cr,
            },
        ),
    ensures
        scan(s, i, m) == scan(
            s,
            i + nl + nr + 3,
            Machine {
                out: m.out + seq![' '] + wl + wr + seq![op, ' '],
                stack: m.stack,
                closed: true,
            },
        ),
{
    let m_a = Machine { out: m.out + seq![' '], stack: m.stack.push('('), closed: false };
    let m_b = Machine { out: m.out + seq![' '] + wl, stack: m.stack.push('('), closed: cl };
    let m_c = Machine { stack: m_b.stack.push(op), ..m_b };
    let m_d = Machine { out: m_b.out + wr, stack: m_c.stack, closed: cr };
    let m_e = Machine { out: m_d.out + seq![op, ' '], stack: m.stack, closed: true };
    assert(scan(s, i, m) == scan(s, i + 1, m_a)) by {
        empty_run(s, i, m);
    }
    assert(resume(s, i + 1 + nl, m_b) == scan(s, i + 2 + nl, m_c)) by {
        operator_on_bracket(m_b, op);
    }
    assert(resume(s, i + 2 + nl + nr, m_d) == scan(s, i + nl + nr + 3, m_e)) by {
        close_on_operator(m_d, m.stack, op);
    }
}

/// Reading a well-formed expression that stands at position `i` of `s`, and
/// is not continued by literal text, leaves the stack as it was and adds to
/// the output what the expression writes.
proof fn scan_expression(e: Expr, s: Seq<char>, i: int, m: Machine)
    requires
        e.well_formed(),
        0 <= i,
        i + e.infix().len() <= s.len(),
        s.subrange(i, i + e.infix().len()) == e.infix(),
        i + e.infix().len() == s.len() || !is_run_char(s[i + e.infix().len()]),
    ensures
        scan(s, i, m) == outcome(e, s, i, m),
    decreases e,
{
    match e {
        Expr::Number(d) => {
            scan_number(d, s, i, m);
        },
        Expr::Binary(l, op, r) => {
            let nl = l.infix().len() as int;
            let nr = r.infix().len() as int;
            let n = nl + nr + 3;
            assert(e == Expr::Binary(Box::new(*l), op, Box::new(*r)));
            parts_in_place(*l, op, *r, s, i);
            infix_is_not_empty(*l);
            infix_is_not_empty(*r);
            let wl = l.written() + l.gap();
            let wr = r.written() + r.gap();
            let m_a = Machine { out: m.out + seq![' '], stack: m.stack.push('('), closed: false };
            let m_b = Machine { out: m_a.out + wl, stack: m_a.stack, closed: *l is Binary };
            let m_c = Machine { stack: m_b.stack.push(op), ..m_b };
            let m_d = Machine {
                out: m_c.out + wr,
                stack: m_c.stack,
                closed: m_c.closed || *r is Binary,
            };
            let m_e = Machine { out: m_d.out + seq![op, ' '], stack: m.stack, closed: true };
            assert(scan(s, i + 1, m_a) == resume(s, i + 1 + nl, m_b)) by {
                scan_expression(*l, s, i + 1, m_a);
                assert(m_a.out + l.written() + l.gap() == m_a.out + wl);
            }
            assert(scan(s, i + 2 + nl, m_c) == resume(s, i + 2 + nl + nr, m_d)) by {
                scan_expression(*r, s, i + 2 + nl, m_c);
                assert(m_c.out + r.written() + r.gap() == m_c.out + wr);
            }
            assert(scan(s, i, m) == scan(s, i + n, m_e)) by {
                scan_bracket_pair(s, i, nl, nr, op, m, wl, wr, m_b.closed, m_d.closed);
            }
            assert(m_e.out == m.out + e.written()) by {
                assert(m.out + seq![' '] + (l.written() + l.gap()) + (r.written() + r.gap())
                    + seq![op, ' '] =~= m.out + (seq![' '] + l.written() + l.gap() + r.written()
                    + r.gap() + seq![op, ' ']));
            }
            assert(scan(s, i + n, m_e) == outcome(e, s, i, m)) by {
                if i + n < s.len() {
                    empty_run(s, i + n, m_e);
                }
            }
        },
    }
}

/// The conversion of a fully bracketed expression succeeds, and its result
/// is what the expression writes, trimmed: for every operator, the postfix
/// text of the left operand, that of the right operand, then the operator.
pub proof fn bracketed_expression_converts(e: Expr)
    requires
        e.well_formed(),
    ensures
        postfix_of(e.infix()) == Ok::<Seq<char>, CalcError>(trim(e.written())),
        trim(e.written()).len() > 0,
{
    let s = e.infix();
    assert(s.subrange(0, s.len() as int) == s);
    scan_expression(e, s, 0, Machine::start());
    assert(Seq::<char>::empty() + e.written() == e.written());
    assert(e.written() + spill(Seq::<char>::empty()) == e.written());
    written_has_text(e);
    trim_keeps_text(e.written());
}

/// The tokens of what a well-formed expression writes are its tokens in
/// postfix order.
proof fn written_tokens(e: Expr)
    requires
        e.well_formed(),
    ensures
        tokens_of(e.written()) == e.postorder(),
        e.written().len() > 0,
        e.written().last() == ' ',
    decreases e,
{
    let none = Seq::<Seq<char>>::empty();
    match e {
        Expr::Number(d) => {
            assert(d + seq![' '] == d.push(' '));
            tokens_before_blank(d, ' ');
            assert forall|q: int| 0 <= q < d.len() implies !is_blank(#[trigger] d[q]) by {
                assert(is_numeral_char(d[q]));
            }
            tokens_of_one_word(d);
        },
        Expr::Binary(l, op, r) => {
            written_tokens(*l);
            written_tokens(*r);
            let a0 = seq![' '];
            assert(tokens_of(a0) == none) by {
                assert(a0 == Seq::<char>::empty().push(' '));
                tokens_before_blank(Seq::<char>::empty(), ' ');
            }
            let a1 = a0 + l.written();
            assert(tokens_of(a1) == l.postorder()) by {
                tokens_of_two_texts(a0, l.written());
                assert(none + l.postorder() == l.postorder());
            }
            let a2 = a1 + l.gap();
            assert(tokens_of(a2) == l.postorder() && a2.last() == ' ') by {
                if *l is Binary {
                    assert(a2 == a1.push(' '));
                    tokens_before_blank(a1, ' ');
                } else {
                    assert(a2 == a1);
                }
            }
            let a3 = a2 + r.written();
            assert(tokens_of(a3) == l.postorder() + r.postorder()) by {
                tokens_of_two_texts(a2, r.written());
            }
            let a4 = a3 + r.gap();
            assert(tokens_of(a4) == l.postorder() + r.postorder() && a4.last() == ' ') by {
                if *r is Binary {
                    assert(a4 == a3.push(' '));
                    tokens_before_blank(a3, ' ');
                } else {
                    assert(a4 == a3);
                }
            }
            let tail = seq![op, ' '];
            assert(tokens_of(tail) == seq![seq![op]]) by {
                assert(tail == seq![op].push(' '));
                tokens_before_blank(seq![op], ' ');
                tokens_of_one_word(seq![op]);
            }
            tokens_of_two_texts(a4, tail);
            assert(e.written() == a4 + tail);
        },
    }
}

/// The conversion of a fully bracketed expression yields the tokens of the
/// expression in postfix order.
pub proof fn bracketed_expression_tokens(e: Expr)
    requires
        e.well_formed(),
    ensures
        postfix_of(e.infix()) matches Ok(p) && tokens_of(p) == e.postorder(),
{
    bracketed_expression_converts(e);
    tokens_of_trimmed(e.written());
    written_tokens(e);
}

/// Running two token sequences in a row is running the second on what the
/// first has left.
proof fn stack_after_two<V>(
    a: Seq<Seq<char>>,
    b: Seq<Seq<char>>,
    stack: Seq<V>,
    read: spec_fn(Seq<char>) -> V,
    apply: spec_fn(Operator, V, V) -> V,
)
    ensures
        stack_after(a + b, stack, read, apply) == (match stack_after(a, stack, read, apply) {
            Ok(left) => stack_after(b, left, read, apply),
            Err(e) => Err(e),
        }),
    decreases a.len(),
{
    if a.len() == 0 {
        assert(a + b == b);
    } else {
        assert((a + b)[0] == a[0]);
        assert((a + b).drop_first() == a.drop_first() + b);
        match action_for(stack.len(), kind_of(a[0])) {
            Err(e) => {},
            Ok(action) => {
                stack_after_two(
                    a.drop_first(),
                    b,
                    perform(action, a[0], stack, read, apply),
                    read,
                    apply,
                );
            },
        }
    }
}

/// Running the postfix tokens of a well-formed expression adds one value to
/// the stack: the value of the expression.
proof fn postorder_leaves_value<V>(
    e: Expr,
    stack: Seq<V>,
    read: spec_fn(Seq<char>) -> V,
    apply: spec_fn(Operator, V, V) -> V,
)
    requires
        e.well_formed(),
    ensures
        stack_after(e.postorder(), stack, read, apply) == Ok::<Seq<V>, CalcError>(
            stack.push(e.value(read, apply)),
        ),
    decreases e,
{
    reveal_with_fuel(stack_after, 2);
    match e {
        Expr::Number(d) => {
            assert(is_numeral(d));
            assert(seq![d].drop_first() == Seq::<Seq<char>>::empty());
        },
        Expr::Binary(l, op, r) => {
            let vl = l.value(read, apply);
            let vr = r.value(read, apply);
            let last = seq![seq![op]];
            postorder_leaves_value(*l, stack, read, apply);
            postorder_leaves_value(*r, stack.push(vl), read, apply);
            stack_after_two(l.postorder(), r.postorder(), stack, read, apply);
            stack_after_two(l.postorder() + r.postorder(), last, stack, read, apply);
            let both = stack.push(vl).push(vr);
            assert(!is_numeral(seq![op])) by {
                assert(!is_numeral_char(seq![op][0]));
            }
            assert(kind_of(seq![op]) == TokenKind::Symbol(op));
            assert(action_for(both.len(), kind_of(last[0])) == Ok::<Action, CalcError>(
                Action::Apply(operator_of(op).unwrap()),
            ));
            assert(both.drop_last().drop_last() == stack);
            assert(last.drop_first() == Seq::<Seq<char>>::empty());
        },
    }
}

/// Converting a fully bracketed expression and then evaluating the result
/// gives the value of the expression: whatever the literals are read as and
/// whatever the operators compute, running the tokens of the postfix text on
/// an empty stack never finds too few values and leaves exactly one value,
/// that of the expression.
pub proof fn conversion_keeps_value<V>(
    e: Expr,
    read: spec_fn(Seq<char>) -> V,
    apply: spec_fn(Operator, V, V) -> V,
)
    requires
        e.well_formed(),
    ensures
        postfix_of(e.infix()) matches Ok(p) && stack_after(
            tokens_of(p),
            Seq::empty(),
            read,
            apply,
        ) == Ok::<Seq<V>, CalcError>(seq![e.value(read, apply)]),
{
    bracketed_expression_tokens(e);
    postorder_leaves_value(e, Seq::<V>::empty(), read, apply);
    assert(Seq::<V>::empty().push(e.value(read, apply)) == seq![e.value(read, apply)]);
}

} // verus!
