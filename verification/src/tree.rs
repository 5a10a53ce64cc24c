//! The expression that a run of tokens stands for, and its postfix form.

use vstd::prelude::*;
use crate::operators::{binding, operator_char};
use crate::tokens::{alternating, numeral, well_placed, Token};

verus! {

/// An arithmetic expression.
pub enum Expr {
    /// A numeral, by its digits.
    Literal(Seq<char>),
    /// An operator applied to a left and a right operand.
    Binary(Box<Expr>, char, Box<Expr>),
}

/// The operator at index `i` of `ts` is the one applied last: no operator
/// binds more loosely, and among those that bind as loosely it stands
/// rightmost.
pub open spec fn is_root(ts: Seq<Token>, i: int) -> bool {
    &&& 0 <= i < ts.len()
    &&& ts[i] is Operator
    &&& forall|j: int|
        0 <= j < ts.len() && #[trigger] ts[j] is Operator ==> if j < i {
            binding(ts[j]->Operator_0) >= binding(ts[i]->Operator_0)
        } else {
            j == i || binding(ts[j]->Operator_0) > binding(ts[i]->Operator_0)
        }
}

/// The index of the operator of `ts` that is applied last.
pub open spec fn root(ts: Seq<Token>) -> int {
    choose|i: int| is_root(ts, i)
}

/// The expression that `ts` stands for under the usual reading: an operator
/// that binds more tightly is applied first, and operators that bind alike
/// are applied from left to right.
pub open spec fn tree(ts: Seq<Token>) -> Expr
    decreases ts.len(),
{
    if exists|i: int| is_root(ts, i) {
        let i = root(ts);
        Expr::Binary(
            Box::new(tree(ts.take(i))),
            ts[i]->Operator_0,
            Box::new(tree(ts.skip(i + 1))),
        )
    } else if ts.len() == 1 && ts[0] is Number {
        Expr::Literal(ts[0]->Number_0)
    } else {
        Expr::Literal(Seq::empty())
    }
}

/// The postfix form of `e`: the left operand, the right operand, then the
/// operator.
pub open spec fn postorder(e: Expr) -> Seq<Token>
    decreases e,
{
    match e {
        Expr::Literal(n) => seq![Token::Number(n)],
        Expr::Binary(l, c, r) => postorder(*l) + postorder(*r) + seq![Token::Operator(c)],
    }
}

/// Every numeral of `e` has a digit and every operator of `e` is one of the
/// four.
pub open spec fn well_formed(e: Expr) -> bool
    decreases e,
{
    match e {
        Expr::Literal(n) => numeral(n),
        Expr::Binary(l, c, r) => well_formed(*l) && operator_char(c) && well_formed(*r),
    }
}

/// A run of tokens has at most one operator that is applied last.
pub proof fn lemma_root_unique(ts: Seq<Token>, i: int, j: int)
    requires
        is_root(ts, i),
        is_root(ts, j),
    ensures
        i == j,
{
}

/// Where the operator at index `i` is applied last, the expression is that
/// operator applied to what stands left and right of it.
pub proof fn lemma_tree_at_root(ts: Seq<Token>, i: int)
    requires
        is_root(ts, i),
    ensures
        tree(ts) == Expr::Binary(
            Box::new(tree(ts.take(i))),
            ts[i]->Operator_0,
            Box::new(tree(ts.skip(i + 1))),
        ),
{
}

/// A single numeral stands for itself.
pub proof fn lemma_tree_of_number(ts: Seq<Token>)
    requires
        ts.len() == 1,
        ts[0] is Number,
    ensures
        tree(ts) == Expr::Literal(ts[0]->Number_0),
{
}

/// The last of the operators that bind as loosely as addition is applied
/// last, to all that stands left of it and all that stands right of it: sums
/// and differences are taken from left to right, and after the products and
/// quotients between them.
pub proof fn lemma_last_sum_applied_last(ts: Seq<Token>, i: int)
    requires
        alternating(ts),
        0 <= i < ts.len(),
        ts[i] == Token::Operator('+') || ts[i] == Token::Operator('-'),
        forall|j: int|
            i < j < ts.len() ==> ts[j] != Token::Operator('+') && ts[j] != Token::Operator('-'),
    ensures
        tree(ts) == Expr::Binary(
            Box::new(tree(ts.take(i))),
            ts[i]->Operator_0,
            Box::new(tree(ts.skip(i + 1))),
        ),
{
    assert forall|j: int| 0 <= j < ts.len() && #[trigger] ts[j] is Operator implies if j < i {
        binding(ts[j]->Operator_0) >= binding(ts[i]->Operator_0)
    } else {
        j == i || binding(ts[j]->Operator_0) > binding(ts[i]->Operator_0)
    } by {
        assert(well_placed(ts, j));
    }
    lemma_tree_at_root(ts, i);
}

/// Where all operators are products and quotients, the last of them is
/// applied last, to all that stands left of it and to the last numeral:
/// products and quotients are taken from left to right.
pub proof fn lemma_last_product_applied_last(ts: Seq<Token>)
    requires
        alternating(ts),
        ts.len() >= 3,
        forall|j: int|
            0 <= j < ts.len() ==> ts[j] != Token::Operator('+') && ts[j] != Token::Operator('-'),
    ensures
        tree(ts) == Expr::Binary(
            Box::new(tree(ts.take(ts.len() - 2))),
            ts[ts.len() - 2]->Operator_0,
            Box::new(Expr::Literal(ts.last()->Number_0)),
        ),
{
    let i = ts.len() - 2;
    assert(well_placed(ts, i));
    assert(well_placed(ts, i + 1));
    assert forall|j: int| 0 <= j < ts.len() && #[trigger] ts[j] is Operator implies if j < i {
        binding(ts[j]->Operator_0) >= binding(ts[i]->Operator_0)
    } else {
        j == i || binding(ts[j]->Operator_0) > binding(ts[i]->Operator_0)
    } by {
        assert(well_placed(ts, j));
    }
    lemma_tree_at_root(ts, i);
    lemma_tree_of_number(ts.skip(i + 1));
}

/// Among numerals and operators in turn, with an operator among them, one
/// operator is applied last.
pub proof fn lemma_root_exists(ts: Seq<Token>)
    requires
        alternating(ts),
        ts.len() >= 3,
    ensures
        exists|i: int| is_root(ts, i),
    decreases ts.len(),
{
    let q = ts.len() - 2;
    assert(well_placed(ts, q));
    if ts.len() == 3 {
        assert forall|j: int| 0 <= j < ts.len() && #[trigger] ts[j] is Operator implies j == 1 by {
            assert(well_placed(ts, j));
        }
        assert(is_root(ts, 1));
    } else {
        let front = ts.take(q);
        assert forall|j: int| 0 <= j < front.len() implies well_placed(front, j) by {
            assert(well_placed(ts, j));
        }
        lemma_root_exists(front);
        let r = choose|i: int| is_root(front, i);
        if binding(ts[q]->Operator_0) <= binding(ts[r]->Operator_0) {
            assert forall|j: int| 0 <= j < ts.len() && #[trigger] ts[j] is Operator implies if j
                < q {
                binding(ts[j]->Operator_0) >= binding(ts[q]->Operator_0)
            } else {
                j == q || binding(ts[j]->Operator_0) > binding(ts[q]->Operator_0)
            } by {
                assert(well_placed(ts, j));
                if j < q {
                    assert(front[j] == ts[j]);
                }
            }
            assert(is_root(ts, q));
        } else {
            assert forall|j: int| 0 <= j < ts.len() && #[trigger] ts[j] is Operator implies if j
                < r {
                binding(ts[j]->Operator_0) >= binding(ts[r]->Operator_0)
            } else {
                j == r || binding(ts[j]->Operator_0) > binding(ts[r]->Operator_0)
            } by {
                assert(well_placed(ts, j));
                if j < q {
                    assert(front[j] == ts[j]);
                }
            }
            assert(is_root(ts, r));
        }
    }
}

/// Numerals and operators in turn stand for an expression of which every
/// numeral has a digit and every operator is one of the four.
pub proof fn lemma_tree_well_formed(ts: Seq<Token>)
    requires
        alternating(ts),
    ensures
        well_formed(tree(ts)),
    decreases ts.len(),
{
    assert(well_placed(ts, 0));
    if ts.len() > 1 {
        lemma_root_exists(ts);
        let i = root(ts);
        assert(well_placed(ts, i));
        let left = ts.take(i);
        let right = ts.skip(i + 1);
        assert forall|j: int| 0 <= j < left.len() implies well_placed(left, j) by {
            assert(well_placed(ts, j));
        }
        assert forall|j: int| 0 <= j < right.len() implies well_placed(right, j) by {
            assert(well_placed(ts, i + 1 + j));
        }
        lemma_tree_well_formed(left);
        lemma_tree_well_formed(right);
    }
}

/// A numeral with a digit, or one of the four operators.
pub open spec fn sound(t: Token) -> bool {
    match t {
        Token::Number(n) => numeral(n),
        Token::Operator(c) => operator_char(c),
    }
}

/// The postfix form of a well-formed expression holds sound tokens only,
/// and at least one; it ends in an operator just where the expression is an
/// operator applied to two operands.
pub proof fn lemma_postorder_sound(e: Expr)
    requires
        well_formed(e),
    ensures
        postorder(e).len() > 0,
        forall|j: int| 0 <= j < postorder(e).len() ==> sound(#[trigger] postorder(e)[j]),
        postorder(e).last() is Operator <==> e is Binary,
    decreases e,
{
    match e {
        Expr::Literal(n) => {},
        Expr::Binary(l, c, r) => {
            lemma_postorder_sound(*l);
            lemma_postorder_sound(*r);
        },
    }
}

} // verus!
