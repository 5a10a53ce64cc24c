//! Postfix text: tokens with a space behind each.

use vstd::prelude::*;
use crate::tokens::Token;
use crate::tree::sound;

verus! {

/// The text of one token.
pub open spec fn word(t: Token) -> Seq<char> {
    match t {
        Token::Number(n) => n,
        Token::Operator(c) => seq![c],
    }
}

/// The tokens written one after the other, each followed by a space.
pub open spec fn spaced(ts: Seq<Token>) -> Seq<char>
    decreases ts.len(),
{
    if ts.len() == 0 {
        Seq::empty()
    } else {
        spaced(ts.drop_last()) + word(ts.last()) + seq![' ']
    }
}

/// The tokens as postfix text: each followed by a space, but for an
/// operator at the very end, which is followed by nothing.
pub open spec fn render(ts: Seq<Token>) -> Seq<char> {
    if ts.len() > 0 && ts.last() is Operator {
        spaced(ts).drop_last()
    } else {
        spaced(ts)
    }
}

/// A further token adds its text and a space to the spaced text.
pub proof fn lemma_spaced_push(ts: Seq<Token>, t: Token)
    ensures
        spaced(ts.push(t)) == spaced(ts) + word(t) + seq![' '],
{
    assert(ts.push(t).drop_last() =~= ts);
}

/// Where the token at index `k` begins in the spaced text of `ts`.
pub open spec fn offset(ts: Seq<Token>, k: int) -> int {
    spaced(ts.take(k)).len() as int
}

/// The spaced text of the first `k` tokens begins the spaced text of all.
pub proof fn lemma_spaced_prefix(ts: Seq<Token>, k: int)
    requires
        0 <= k <= ts.len(),
    ensures
        offset(ts, k) <= spaced(ts).len(),
        spaced(ts).take(offset(ts, k)) == spaced(ts.take(k)),
    decreases ts.len() - k,
{
    if k == ts.len() {
        assert(ts.take(k) =~= ts);
    } else {
        lemma_spaced_prefix(ts, k + 1);
        assert(ts.take(k + 1) =~= ts.take(k).push(ts[k]));
        lemma_spaced_push(ts.take(k), ts[k]);
    }
}

/// In the spaced text, the token at index `k` stands at its offset, a space
/// follows it, and the next token begins behind that space.
pub proof fn lemma_spaced_at(ts: Seq<Token>, k: int)
    requires
        0 <= k < ts.len(),
    ensures
        offset(ts, k + 1) == offset(ts, k) + word(ts[k]).len() + 1,
        offset(ts, k + 1) <= spaced(ts).len(),
        spaced(ts).subrange(offset(ts, k), offset(ts, k) + word(ts[k]).len()) == word(ts[k]),
        spaced(ts)[offset(ts, k) + word(ts[k]).len()] == ' ',
{
    lemma_spaced_prefix(ts, k + 1);
    assert(ts.take(k + 1) =~= ts.take(k).push(ts[k]));
    lemma_spaced_push(ts.take(k), ts[k]);
    let part = spaced(ts.take(k + 1));
    let at = offset(ts, k);
    let w = word(ts[k]).len() as int;
    assert(spaced(ts).subrange(at, at + w) =~= part.subrange(at, at + w));
    assert(spaced(ts)[at + w] == spaced(ts).take(offset(ts, k + 1))[at + w]);
}

/// The spaced text of sound tokens is an ASCII text.
pub proof fn lemma_spaced_ascii(ts: Seq<Token>)
    requires
        forall|j: int| 0 <= j < ts.len() ==> sound(#[trigger] ts[j]),
    ensures
        vstd::utf8::is_ascii_chars(spaced(ts)),
    decreases ts.len(),
{
    if ts.len() > 0 {
        lemma_spaced_ascii(ts.drop_last());
    }
}

/// Where the text read so far ends in front of the token at index `k`,
/// and text is left, that token stands next in the postfix text; behind a
/// numeral stands a space.
pub proof fn lemma_next_token(ts: Seq<Token>, k: int)
    requires
        0 <= k <= ts.len(),
        offset(ts, k) < render(ts).len(),
    ensures
        k < ts.len(),
        offset(ts, k) + word(ts[k]).len() <= render(ts).len(),
        render(ts).subrange(offset(ts, k), offset(ts, k) + word(ts[k]).len()) == word(ts[k]),
        offset(ts, k + 1) == offset(ts, k) + word(ts[k]).len() + 1,
        offset(ts, k + 1) <= render(ts).len() + 1,
        ts[k] is Number ==> offset(ts, k + 1) <= render(ts).len() && render(ts)[offset(ts, k + 1)
            - 1] == ' ',
{
    assert(ts.take(ts.len() as int) =~= ts);
    lemma_spaced_at(ts, k);
    if ts[k] is Number && k + 1 < ts.len() {
        lemma_spaced_at(ts, k + 1);
    }
}

/// Behind an operator that is not the last token stands a space.
pub proof fn lemma_gap(ts: Seq<Token>, k: int)
    requires
        0 < k <= ts.len(),
        ts[k - 1] is Operator,
        offset(ts, k) - 1 < render(ts).len(),
    ensures
        render(ts)[offset(ts, k) - 1] == ' ',
{
    lemma_spaced_at(ts, k - 1);
}

} // verus!
