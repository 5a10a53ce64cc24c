//! The stack machine that reads a postfix form, and what an expression is
//! worth under a caller's arithmetic.

use vstd::prelude::*;
use crate::tokens::Token;
use crate::tree::{postorder, well_formed, Expr};

verus! {

/// The operand stack after the machine has read `t`: a numeral is pushed; an
/// operator takes the two topmost operands, the lower one as its left
/// operand, and pushes what it makes of them. `None` where an operator finds
/// fewer than two operands.
pub open spec fn step(stack: Seq<Expr>, t: Token) -> Option<Seq<Expr>> {
    match t {
        Token::Number(n) => Some(stack.push(Expr::Literal(n))),
        Token::Operator(c) => if stack.len() >= 2 {
            Some(
                stack.take(stack.len() - 2).push(
                    Expr::Binary(
                        Box::new(stack[stack.len() - 2]),
                        c,
                        Box::new(stack[stack.len() - 1]),
                    ),
                ),
            )
        } else {
            None
        },
    }
}

/// The operand stack after the machine has read all of `ts` from left to
/// right, or `None` where it ran out of operands on the way.
pub open spec fn run(ts: Seq<Token>, stack: Seq<Expr>) -> Option<Seq<Expr>>
    decreases ts.len(),
{
    if ts.len() == 0 {
        Some(stack)
    } else {
        match step(stack, ts[0]) {
            Some(next) => run(ts.drop_first(), next),
            None => None,
        }
    }
}

/// Reading the postfix form of an expression never runs out of operands and
/// leaves that one expression on top of what the stack held before.
pub proof fn lemma_run_postorder(e: Expr, rest: Seq<Token>, stack: Seq<Expr>)
    requires
        well_formed(e),
    ensures
        run(postorder(e) + rest, stack) == run(rest, stack.push(e)),
    decreases e,
{
    match e {
        Expr::Literal(n) => {
            let ts = postorder(e) + rest;
            assert(ts.drop_first() =~= rest);
        },
        Expr::Binary(l, c, r) => {
            let last = seq![Token::Operator(c)] + rest;
            assert(postorder(e) + rest =~= postorder(*l) + (postorder(*r) + last));
            lemma_run_postorder(*l, postorder(*r) + last, stack);
            lemma_run_postorder(*r, last, stack.push(*l));
            let both = stack.push(*l).push(*r);
            assert(last.drop_first() =~= rest);
            assert(step(both, last[0]) == Some(stack.push(e)));
        },
    }
}

/// The postfix form of an expression is read back as that expression alone.
pub proof fn lemma_postfix_valid(e: Expr)
    requires
        well_formed(e),
    ensures
        run(postorder(e), Seq::empty()) == Some(seq![e]),
{
    lemma_run_postorder(e, Seq::empty(), Seq::empty());
}

/// `v` is what `e` is worth where `literal` reads the numerals and `apply`
/// computes each operator on the worth of its left and right operand.
pub open spec fn evaluates<V, L: Fn(&str) -> V, A: Fn(V, V, char) -> V>(
    e: Expr,
    literal: L,
    apply: A,
    v: V,
) -> bool
    decreases e,
{
    match e {
        Expr::Literal(n) => exists|t: &str| t@ == n && call_ensures(literal, (t,), v),
        Expr::Binary(l, c, r) => exists|x: V, y: V|
            evaluates(*l, literal, apply, x) && evaluates(*r, literal, apply, y) && call_ensures(
                apply,
                (x, y, c),
                v,
            ),
    }
}

/// What `e` is worth where `number` gives the worth of a numeral and
/// `combine` that of an operator applied to two operands.
pub open spec fn value<V>(
    e: Expr,
    number: spec_fn(Seq<char>) -> V,
    combine: spec_fn(V, V, char) -> V,
) -> V
    decreases e,
{
    match e {
        Expr::Literal(n) => number(n),
        Expr::Binary(l, c, r) => combine(
            value(*l, number, combine),
            value(*r, number, combine),
            c,
        ),
    }
}

/// Where `literal` always answers `number` of its text and `apply` always
/// answers `combine` of its arguments, an expression is worth nothing but
/// its `value`.
pub proof fn lemma_evaluates_value<V, L: Fn(&str) -> V, A: Fn(V, V, char) -> V>(
    e: Expr,
    literal: L,
    apply: A,
    v: V,
    number: spec_fn(Seq<char>) -> V,
    combine: spec_fn(V, V, char) -> V,
)
    requires
        evaluates(e, literal, apply, v),
        forall|t: &str, r: V| call_ensures(literal, (t,), r) ==> r == number(t@),
        forall|x: V, y: V, c: char, r: V|
            call_ensures(apply, (x, y, c), r) ==> r == combine(x, y, c),
    ensures
        v == value(e, number, combine),
    decreases e,
{
    match e {
        Expr::Literal(n) => {},
        Expr::Binary(l, c, r) => {
            let (x, y) = choose|x: V, y: V|
                evaluates(*l, literal, apply, x) && evaluates(*r, literal, apply, y)
                    && call_ensures(apply, (x, y, c), v);
            lemma_evaluates_value(*l, literal, apply, x, number, combine);
            lemma_evaluates_value(*r, literal, apply, y, number, combine);
        },
    }
}

} // verus!
