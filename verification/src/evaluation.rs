//! The evaluation of postfix text with an operand stack.

use vstd::prelude::*;
use crate::operators::{digit_char, is_digit, operator_char};
use crate::grammar::{
    ascii_len, char_at, is_infix, normalized, validate, verdict, ParseError,
};
use crate::tokens::{lemma_tokens_alternating, numeral, tokens};
use crate::tree::{
    lemma_postorder_sound, lemma_tree_well_formed, postorder, sound, well_formed, Expr,
};
use crate::machine::{evaluates, lemma_postfix_valid, run};
use crate::text::{
    lemma_gap, lemma_next_token, lemma_spaced_ascii, lemma_spaced_at, offset, render, word,
};
use crate::postfix::{expression, to_postfix};

verus! {

/// Evaluates the postfix text of the expression `e` with an operand stack:
/// a numeral is read by `literal` and pushed; an operator takes the two
/// topmost operands, the one pushed earlier as its left operand, and pushes
/// what `apply` makes of them.
fn evaluate_postfix<V, L, A>(postfix: &str, Ghost(e): Ghost<Expr>, literal: L, apply: A) -> (r: V)
    where L: Fn(&str) -> V, A: Fn(V, V, char) -> V
    requires
        well_formed(e),
        postfix@ == render(postorder(e)),
        forall|t: &str| numeral(t@) ==> call_requires(literal, (t,)),
        forall|x: V, y: V, c: char| operator_char(c) ==> call_requires(apply, (x, y, c)),
    ensures
        evaluates(e, literal, apply, r),
{
    let ghost ts = postorder(e);
    proof {
        lemma_postorder_sound(e);
        lemma_spaced_ascii(ts);
        lemma_postfix_valid(e);
        assert(ts.skip(0) =~= ts);
    }
    let n = ascii_len(postfix);
    let mut stack: Vec<V> = Vec::new();
    let ghost mut trees: Seq<Expr> = Seq::empty();
    let ghost mut k: int = 0;
    let ghost mut gap: int = 0;
    let mut i: usize = 0;
    while i < n
        invariant
            postfix@ == render(ts),
            postfix.is_ascii(),
            n == postfix@.len(),
            forall|j: int| 0 <= j < ts.len() ==> sound(#[trigger] ts[j]),
            forall|t: &str| numeral(t@) ==> call_requires(literal, (t,)),
            forall|x: V, y: V, c: char| operator_char(c) ==> call_requires(apply, (x, y, c)),
            0 <= k <= ts.len(),
            0 <= gap <= 1,
            gap == 1 ==> k > 0 && ts[k - 1] is Operator,
            i + gap == offset(ts, k),
            i <= n,
            stack@.len() == trees.len(),
            forall|j: int|
                0 <= j < trees.len() ==> evaluates(trees[j], literal, apply, #[trigger] stack@[j]),
            run(ts.skip(k), trees) == Some(seq![e]),
        decreases n - i,
    {
        let c = char_at(postfix, i);
        proof {
            if gap == 1 {
                lemma_gap(ts, k);
            } else {
                lemma_next_token(ts, k);
                assert(word(ts[k])[0] == postfix@[i as int]);
                assert(ts.skip(k).drop_first() =~= ts.skip(k + 1));
            }
        }
        if c == ' ' {
            proof {
                gap = 0;
            }
            i += 1;
        } else if is_digit(c) {
            let ghost d = ts[k]->Number_0;
            let start = i;
            i += 1;
            while i < n && is_digit(char_at(postfix, i))
                invariant
                    postfix.is_ascii(),
                    n == postfix@.len(),
                    numeral(d),
                    start < i <= start + d.len(),
                    start + d.len() < n,
                    postfix@.subrange(start as int, start + d.len()) == d,
                    postfix@[start + d.len()] == ' ',
                decreases n - i,
            {
                i += 1;
            }
            proof {
                if i < start + d.len() {
                    assert(digit_char(d[i - start]));
                }
            }
            let digits = postfix.substring_ascii(start, i);
            let v = literal(digits);
            proof {
                trees = trees.push(Expr::Literal(d));
                k = k + 1;
            }
            stack.push(v);
            i += 1;
        } else {
            let x = stack.pop().unwrap();
            let y = stack.pop().unwrap();
            let r = apply(y, x, c);
            stack.push(r);
            proof {
                let m = trees.len() as int;
                let left = trees[m - 2];
                let right = trees[m - 1];
                let both = Expr::Binary(Box::new(left), c, Box::new(right));
                assert(evaluates(both, literal, apply, r)) by {
                    assert(both matches Expr::Binary(l, op, rt) && *l == left && op == c && *rt
                        == right);
                }
                trees = trees.take(m - 2).push(both);
                k = k + 1;
                gap = 1;
            }
            i += 1;
        }
    }
    proof {
        if k < ts.len() {
            lemma_spaced_at(ts, k);
        }
    }
    stack.pop().unwrap()
}

/// The postfix form of an infix expression is one that the stack machine
/// reads from left to right without ever running out of operands, and what
/// it leaves on the stack is the one expression that the infix text stands
/// for when operators that bind more tightly are applied first and operators
/// that bind alike from left to right.
pub proof fn lemma_round_trip(s: Seq<char>)
    requires
        is_infix(s),
    ensures
        well_formed(expression(s)),
        run(postorder(expression(s)), Seq::empty()) == Some(seq![expression(s)]),
{
    lemma_tokens_alternating(normalized(s));
    lemma_tree_well_formed(tokens(normalized(s)));
    lemma_postfix_valid(expression(s));
}

/// Calculates what an infix expression is worth: the expression is rewritten
/// into postfix text, and that text is evaluated with an operand stack.
/// `literal` gives the worth of a numeral and `apply` that of an operator on
/// its left and right operand, in this order. An operator that binds more
/// tightly is applied first, operators that bind alike are applied from left
/// to right, and a leading minus sign is a subtraction from zero.
pub fn calculate<V, L, A>(s: String, literal: L, apply: A) -> (r: V)
    where L: Fn(&str) -> V, A: Fn(V, V, char) -> V
    requires
        is_infix(s@),
        forall|t: &str| numeral(t@) ==> call_requires(literal, (t,)),
        forall|x: V, y: V, c: char| operator_char(c) ==> call_requires(apply, (x, y, c)),
    ensures
        evaluates(expression(s@), literal, apply, r),
{
    let ghost e = expression(s@);
    proof {
        lemma_round_trip(s@);
    }
    let postfix = to_postfix(s);
    evaluate_postfix(postfix.as_str(), Ghost(e), literal, apply)
}

/// Calculates what `s` is worth where `s` is an infix expression, as
/// `calculate` does, and says what is wrong with `s` where it is none.
pub fn try_calculate<V, L, A>(s: String, literal: L, apply: A) -> (r: Result<V, ParseError>)
    where L: Fn(&str) -> V, A: Fn(V, V, char) -> V
    requires
        forall|t: &str| numeral(t@) ==> call_requires(literal, (t,)),
        forall|x: V, y: V, c: char| operator_char(c) ==> call_requires(apply, (x, y, c)),
    ensures
        r is Ok <==> is_infix(s@),
        match r {
            Ok(v) => evaluates(expression(s@), literal, apply, v),
            Err(error) => verdict(s@) == Err::<(), ParseError>(error),
        },
{
    match validate(s.as_str()) {
        Ok(()) => Ok(calculate(s, literal, apply)),
        Err(error) => Err(error),
    }
}

} // verus!
