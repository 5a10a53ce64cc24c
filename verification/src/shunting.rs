//! What the conversion has written and what it still holds back, at any
//! point of its scan.

use vstd::prelude::*;
use crate::operators::{binding, operator_char};
use crate::tokens::{well_placed, Token};
use crate::tree::{lemma_tree_at_root, postorder, tree};

verus! {

/// The postfix form of the tokens of `ts` from index `a` up to index `b`;
/// nothing where there are none.
pub open spec fn segment(ts: Seq<Token>, a: int, b: int) -> Seq<Token> {
    if a < b {
        postorder(tree(ts.subrange(a, b)))
    } else {
        Seq::empty()
    }
}

/// The index behind the last of `pos`; 0 where `pos` is empty.
pub open spec fn low(pos: Seq<int>) -> int {
    if pos.len() == 0 {
        0
    } else {
        pos.last() + 1
    }
}

/// What has been written once the tokens before index `end` are read and
/// the operators at the indices `pos` are held back: the postfix form of each
/// stretch between two operators held back, one after the other.
pub open spec fn emitted(ts: Seq<Token>, pos: Seq<int>, end: int) -> Seq<Token>
    decreases pos.len(),
{
    if pos.len() == 0 {
        segment(ts, 0, end)
    } else {
        emitted(ts, pos.drop_last(), pos.last()) + segment(ts, pos.last() + 1, end)
    }
}

/// The operators held back, bottom first, stand in `ts` at the indices
/// `pos`. Each binds more loosely than every operator behind it, and no more
/// tightly than any operator between it and the one held back below it.
pub open spec fn held(ts: Seq<Token>, pos: Seq<int>, stack: Seq<char>) -> bool {
    &&& pos.len() == stack.len()
    &&& forall|k: int|
        0 <= k < pos.len() ==> low(pos.take(k)) <= #[trigger] pos[k] < ts.len() && ts[pos[k]]
            == Token::Operator(stack[k]) && operator_char(stack[k])
    &&& forall|k: int, j: int|
        0 <= k < pos.len() && pos[k] < j < ts.len() && #[trigger] ts[j] is Operator ==> binding(
            ts[j]->Operator_0,
        ) > binding(#[trigger] stack[k])
    &&& forall|k: int, j: int|
        0 <= k < pos.len() && low(pos.take(k)) <= j < pos[k] && #[trigger] ts[j] is Operator
            ==> binding(ts[j]->Operator_0) >= binding(#[trigger] stack[k])
}

/// A further token at the end changes nothing of what was written from the
/// tokens before it.
pub proof fn lemma_emitted_extend(ts: Seq<Token>, t: Token, pos: Seq<int>, end: int)
    requires
        end <= ts.len(),
        forall|k: int| 0 <= k < pos.len() ==> 0 <= #[trigger] pos[k] < ts.len(),
    ensures
        emitted(ts.push(t), pos, end) == emitted(ts, pos, end),
    decreases pos.len(),
{
    let us = ts.push(t);
    if pos.len() == 0 {
        if 0 < end {
            assert(us.subrange(0, end) =~= ts.subrange(0, end));
        }
    } else {
        let p = pos.last();
        let rest = pos.drop_last();
        if p + 1 < end {
            assert(us.subrange(p + 1, end) =~= ts.subrange(p + 1, end));
        }
        lemma_emitted_extend(ts, t, rest, p);
    }
}

/// Where the operator at index `p` is applied last among the tokens from
/// `a` up to `b`, their postfix form is that of the tokens before `p`, that
/// of the tokens behind it, and the operator.
pub proof fn lemma_segment_split(ts: Seq<Token>, a: int, p: int, b: int)
    requires
        0 <= a < p,
        p + 1 < b <= ts.len(),
        ts[p] is Operator,
        operator_char(ts[p]->Operator_0),
        forall|j: int|
            a <= j < p && #[trigger] ts[j] is Operator ==> binding(ts[j]->Operator_0) >= binding(
                ts[p]->Operator_0,
            ),
        forall|j: int|
            p < j < b && #[trigger] ts[j] is Operator ==> binding(ts[j]->Operator_0) > binding(
                ts[p]->Operator_0,
            ),
    ensures
        segment(ts, a, b) == segment(ts, a, p) + segment(ts, p + 1, b) + seq![ts[p]],
{
    let sub = ts.subrange(a, b);
    lemma_tree_at_root(sub, p - a);
    assert(sub.take(p - a) =~= ts.subrange(a, p));
    assert(sub.skip(p - a + 1) =~= ts.subrange(p + 1, b));
}

/// Writing the topmost operator held back, where no operator behind it binds
/// as loosely, completes the postfix form of the stretch that it governs.
pub proof fn lemma_emitted_pop(ts: Seq<Token>, pos: Seq<int>, stack: Seq<char>)
    requires
        forall|i: int| 0 <= i < ts.len() ==> well_placed(ts, i),
        ts.len() % 2 == 1,
        held(ts, pos, stack),
        pos.len() > 0,
    ensures
        emitted(ts, pos.drop_last(), ts.len() as int) == emitted(ts, pos, ts.len() as int).push(
            Token::Operator(stack.last()),
        ),
        held(ts, pos.drop_last(), stack.drop_last()),
{
    let end = ts.len() as int;
    let p = pos.last();
    let rest = pos.drop_last();
    let a = low(rest);
    assert(well_placed(ts, p));
    assert(a < p) by {
        if rest.len() > 0 {
            assert(well_placed(ts, rest.last()));
        }
    }
    lemma_segment_split(ts, a, p, end);
    if rest.len() == 0 {
        assert(emitted(ts, rest, p) == segment(ts, 0, p));
    } else {
        let q = rest.last();
        assert(emitted(ts, rest, p) == emitted(ts, rest.drop_last(), q) + segment(ts, q + 1, p));
    }
}

/// Every operator of `ts` from index `from` on binds at least as tightly
/// as `c`.
pub open spec fn yielding(ts: Seq<Token>, from: int, c: char) -> bool {
    forall|j: int|
        from <= j < ts.len() && #[trigger] ts[j] is Operator ==> binding(ts[j]->Operator_0)
            >= binding(c)
}

/// No operator stands in `ts` from index `from` on.
pub open spec fn quiet(ts: Seq<Token>, from: int) -> bool {
    forall|j: int| from <= j < ts.len() ==> !(#[trigger] ts[j] is Operator)
}

/// A numeral read after the topmost operator held back, or as the very
/// first token, is written at once.
pub proof fn lemma_emitted_number(ts: Seq<Token>, pos: Seq<int>, stack: Seq<char>, n: Seq<char>)
    requires
        forall|i: int| 0 <= i < ts.len() ==> well_placed(ts, i),
        ts.len() % 2 == 0,
        held(ts, pos, stack),
        quiet(ts, low(pos)),
    ensures
        emitted(ts.push(Token::Number(n)), pos, ts.len() as int + 1) == emitted(
            ts,
            pos,
            ts.len() as int,
        ).push(Token::Number(n)),
{
    let q = ts.len() as int;
    assert(q > 0 ==> well_placed(ts, q - 1));
    if pos.len() > 0 {
        let rest = pos.drop_last();
        assert forall|k: int| 0 <= k < rest.len() implies 0 <= #[trigger] rest[k] < ts.len() by {
        }
        lemma_emitted_extend(ts, Token::Number(n), rest, pos.last());
    }
}

/// An operator that is held back leaves what was written as it is.
pub proof fn lemma_emitted_operator(ts: Seq<Token>, pos: Seq<int>, stack: Seq<char>, c: char)
    requires
        held(ts, pos, stack),
        operator_char(c),
    ensures
        emitted(ts.push(Token::Operator(c)), pos.push(ts.len() as int), ts.len() as int + 1) == emitted(
            ts,
            pos,
            ts.len() as int,
        ),
{
    let q = ts.len() as int;
    assert(pos.push(q).drop_last() =~= pos);
    lemma_emitted_extend(ts, Token::Operator(c), pos, q);
}

} // verus!
