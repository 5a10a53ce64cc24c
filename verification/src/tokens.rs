//! How a text of digits and operators falls into numerals and operators.

use vstd::prelude::*;
use crate::operators::{digit_char, operator_char};
use crate::grammar::plain_infix;

verus! {

/// One lexical unit of an expression.
pub enum Token {
    /// A numeral, by its digits.
    Number(Seq<char>),
    /// A single operator character.
    Operator(char),
}

/// A text made of digits only, and of at least one.
pub open spec fn numeral(s: Seq<char>) -> bool {
    s.len() > 0 && forall|i: int| 0 <= i < s.len() ==> digit_char(#[trigger] s[i])
}

/// The index at which the run of digits that ends `s` begins; the length of
/// `s` where `s` does not end in a digit.
pub open spec fn numeral_start(s: Seq<char>) -> int
    decreases s.len(),
{
    if s.len() > 0 && digit_char(s.last()) {
        numeral_start(s.drop_last())
    } else {
        s.len() as int
    }
}

/// The tokens of `s`, in order: each maximal run of digits is one numeral,
/// and every other character is a token by itself.
pub open spec fn tokens(s: Seq<char>) -> Seq<Token>
    decreases s.len(),
{
    if s.len() == 0 {
        Seq::empty()
    } else if digit_char(s.last()) {
        let k = numeral_start(s);
        proof {
            lemma_numeral_start(s);
        }
        tokens(s.take(k)).push(Token::Number(s.skip(k)))
    } else {
        tokens(s.drop_last()).push(Token::Operator(s.last()))
    }
}

/// The run of digits that ends `s` is the longest there is: it begins
/// inside `s`, holds digits only, and no digit stands before it.
pub proof fn lemma_numeral_start(s: Seq<char>)
    ensures
        0 <= numeral_start(s) <= s.len(),
        s.len() > 0 && digit_char(s.last()) ==> numeral_start(s) < s.len(),
        forall|i: int| numeral_start(s) <= i < s.len() ==> digit_char(#[trigger] s[i]),
        numeral_start(s) > 0 ==> !digit_char(s[numeral_start(s) - 1]),
    decreases s.len(),
{
    if s.len() > 0 && digit_char(s.last()) {
        let t = s.drop_last();
        lemma_numeral_start(t);
        assert forall|i: int| numeral_start(s) <= i < s.len() implies digit_char(
            #[trigger] s[i],
        ) by {
            if i < t.len() {
                assert(s[i] == t[i]);
            }
        }
    }
}

/// Reading a run of digits that begins at `from`, where no digit stands
/// before it, adds one numeral to the tokens read so far.
pub proof fn lemma_tokens_number(s: Seq<char>, from: int, to: int)
    requires
        0 <= from < to <= s.len(),
        forall|i: int| from <= i < to ==> digit_char(#[trigger] s[i]),
        from > 0 ==> !digit_char(s[from - 1]),
    ensures
        tokens(s.take(to)) == tokens(s.take(from)).push(Token::Number(s.subrange(from, to))),
{
    let t = s.take(to);
    lemma_run_start(s, from, to);
    assert(t.take(from) =~= s.take(from));
    assert(t.skip(from) =~= s.subrange(from, to));
}

/// A run of digits from `from` up to `to`, with no digit before it, is the
/// run of digits that ends the text before `to`.
proof fn lemma_run_start(s: Seq<char>, from: int, to: int)
    requires
        0 <= from <= to <= s.len(),
        forall|i: int| from <= i < to ==> digit_char(#[trigger] s[i]),
        from > 0 ==> !digit_char(s[from - 1]),
    ensures
        numeral_start(s.take(to)) == from,
    decreases to - from,
{
    let t = s.take(to);
    if from < to {
        assert(t.drop_last() =~= s.take(to - 1));
        lemma_run_start(s, from, to - 1);
    }
}

/// Reading an operator adds it to the tokens read so far.
pub proof fn lemma_tokens_operator(s: Seq<char>, at: int)
    requires
        0 <= at < s.len(),
        operator_char(s[at]),
    ensures
        tokens(s.take(at + 1)) == tokens(s.take(at)).push(Token::Operator(s[at])),
{
    let t = s.take(at + 1);
    assert(t.drop_last() =~= s.take(at));
}

/// Numerals and operators in turn, beginning and ending with a numeral.
pub open spec fn alternating(ts: Seq<Token>) -> bool {
    &&& ts.len() % 2 == 1
    &&& forall|i: int| 0 <= i < ts.len() ==> well_placed(ts, i)
}

/// The token at index `i` is a numeral where `i` is even and an operator
/// where it is odd.
pub open spec fn well_placed(ts: Seq<Token>, i: int) -> bool {
    match ts[i] {
        Token::Number(n) => i % 2 == 0 && numeral(n),
        Token::Operator(c) => i % 2 == 1 && operator_char(c),
    }
}

/// A token may end in front of index `i` of `s`: `i` does not part two
/// digits.
pub open spec fn boundary(s: Seq<char>, i: int) -> bool {
    &&& 0 <= i <= s.len()
    &&& 0 < i < s.len() ==> !(digit_char(s[i - 1]) && digit_char(s[i]))
}

/// The tokens of an expression up to a boundary are numerals and operators
/// in turn, the first a numeral, and the last a numeral just where a digit
/// stands in front of the boundary.
pub proof fn lemma_tokens_prefix(s: Seq<char>, i: int)
    requires
        plain_infix(s),
        boundary(s, i),
    ensures
        forall|j: int|
            0 <= j < tokens(s.take(i)).len() ==> well_placed(tokens(s.take(i)), j),
        tokens(s.take(i)).len() % 2 == 1 <==> i > 0 && digit_char(s[i - 1]),
    decreases i,
{
    let t = s.take(i);
    if i > 0 && digit_char(s[i - 1]) {
        let k = numeral_start(t);
        lemma_numeral_start(t);
        assert(t.take(k) =~= s.take(k));
        assert(t.skip(k) =~= s.subrange(k, i));
        lemma_tokens_prefix(s, k);
        let before = tokens(s.take(k));
        let all = before.push(Token::Number(s.subrange(k, i)));
        assert forall|j: int| 0 <= j < all.len() implies well_placed(all, j) by {
            if j < before.len() {
                assert(well_placed(before, j));
            }
        }
    } else if i > 0 {
        lemma_tokens_operator(s, i - 1);
        lemma_tokens_prefix(s, i - 1);
        let before = tokens(s.take(i - 1));
        let all = before.push(Token::Operator(s[i - 1]));
        assert forall|j: int| 0 <= j < all.len() implies well_placed(all, j) by {
            if j < before.len() {
                assert(well_placed(before, j));
            }
        }
    }
}

/// The tokens of an expression are numerals and operators in turn,
/// beginning and ending with a numeral.
pub proof fn lemma_tokens_alternating(s: Seq<char>)
    requires
        plain_infix(s),
    ensures
        alternating(tokens(s)),
{
    lemma_tokens_prefix(s, s.len() as int);
    assert(s.take(s.len() as int) =~= s);
}

} // verus!
