//! The conversion of an infix expression into postfix text.

use vstd::prelude::*;
use crate::operators::{digit_char, is_operator, operator_char, precedence};
use crate::subscript::StringSubscription;
use crate::grammar::{
    ascii_len, char_at, is_infix, lemma_infix_by_position, normalized, plain_infix,
};
use crate::tokens::{
    boundary, lemma_tokens_number, lemma_tokens_operator, lemma_tokens_prefix, tokens,
    well_placed, Token,
};
use crate::tree::{postorder, tree, Expr};
use crate::text::{lemma_spaced_push, render, spaced};
use crate::shunting::{
    emitted, held, lemma_emitted_number, lemma_emitted_operator, lemma_emitted_pop, low, quiet,
    yielding,
};

verus! {

/// The expression that the infix text `s` stands for.
pub open spec fn expression(s: Seq<char>) -> Expr {
    tree(tokens(normalized(s)))
}

/// The postfix text of the infix text `s`.
pub open spec fn postfix_text(s: Seq<char>) -> Seq<char> {
    render(postorder(expression(s)))
}

/// The text of a single operator.
fn operator_text(c: char) -> (t: &'static str)
    requires
        operator_char(c),
    ensures
        t@ == seq![c],
{
    proof {
        reveal_strlit("+");
        reveal_strlit("-");
        reveal_strlit("*");
        reveal_strlit("/");
    }
    match c {
        '+' => "+",
        '-' => "-",
        '*' => "*",
        _ => "/",
    }
}

/// Puts a `0` in front of a leading minus sign.
fn normalize(infix: String) -> (text: String)
    requires
        is_infix(infix@),
    ensures
        text@ == normalized(infix@),
        text.is_ascii(),
{
    proof {
        lemma_infix_by_position(infix@);
        reveal_strlit("0");
    }
    if infix.ch(0) == '-' {
        let mut text = String::from_str("0");
        text.append(infix.as_str());
        text
    } else {
        infix
    }
}

/// Converts an expression without a leading sign.
fn convert(s: &str) -> (postfix: String)
    requires
        plain_infix(s@),
        s.is_ascii(),
    ensures
        postfix@ == render(postorder(tree(tokens(s@)))),
{
    let n = ascii_len(s);
    let mut postfix = String::new();
    let mut stack: Vec<char> = Vec::new();
    let ghost mut toks: Seq<Token> = Seq::empty();
    let ghost mut pos: Seq<int> = Seq::empty();
    let ghost mut out: Seq<Token> = Seq::empty();
    let mut i: usize = 0;
    while i < n
        invariant
            plain_infix(s@),
            s.is_ascii(),
            n == s@.len(),
            boundary(s@, i as int),
            toks == tokens(s@.take(i as int)),
            held(toks, pos, stack@),
            quiet(toks, low(pos)),
            out == emitted(toks, pos, toks.len() as int),
            postfix@ == spaced(out),
        decreases n - i,
    {
        proof {
            lemma_tokens_prefix(s@, i as int);
        }
        let c = char_at(s, i);
        if !is_operator(c) {
            let start = i;
            i += 1;
            while i < n && !is_operator(char_at(s, i))
                invariant
                    plain_infix(s@),
                    s.is_ascii(),
                    n == s@.len(),
                    start < i <= n,
                    forall|k: int| start <= k < i ==> digit_char(#[trigger] s@[k]),
                decreases n - i,
            {
                i += 1;
            }
            let digits = s.substring_ascii(start, i);
            postfix.append(digits);
            postfix.append(" ");
            proof {
                reveal_strlit(" ");
                let number = Token::Number(s@.subrange(start as int, i as int));
                lemma_tokens_number(s@, start as int, i as int);
                lemma_emitted_number(toks, pos, stack@, number->Number_0);
                lemma_spaced_push(out, number);
                toks = toks.push(number);
                out = out.push(number);
            }
        } else {
            while stack.len() > 0 && precedence(stack[stack.len() - 1]) >= precedence(c)
                invariant
                    operator_char(c),
                    forall|j: int| 0 <= j < toks.len() ==> well_placed(toks, j),
                    toks.len() % 2 == 1,
                    held(toks, pos, stack@),
                    yielding(toks, low(pos), c),
                    out == emitted(toks, pos, toks.len() as int),
                    postfix@ == spaced(out),
                decreases stack.len(),
            {
                let ghost before = stack@;
                let top = stack.pop().unwrap();
                postfix.append(operator_text(top));
                postfix.append(" ");
                proof {
                    reveal_strlit(" ");
                    lemma_emitted_pop(toks, pos, before);
                    lemma_spaced_push(out, Token::Operator(top));
                    out = out.push(Token::Operator(top));
                    pos = pos.drop_last();
                }
            }
            proof {
                lemma_emitted_operator(toks, pos, stack@, c);
                lemma_tokens_operator(s@, i as int);
                pos = pos.push(toks.len() as int);
                toks = toks.push(Token::Operator(c));
            }
            stack.push(c);
            i += 1;
        }
    }
    proof {
        assert(s@.take(n as int) =~= s@);
        lemma_tokens_prefix(s@, n as int);
    }
    if stack.len() == 0 {
        proof {
            assert(toks.len() == 1) by {
                if toks.len() > 1 {
                    assert(well_placed(toks, 1));
                }
            }
        }
        return postfix;
    }
    loop
        invariant
            forall|j: int| 0 <= j < toks.len() ==> well_placed(toks, j),
            toks.len() % 2 == 1,
            toks == tokens(s@),
            stack.len() > 0,
            held(toks, pos, stack@),
            out == emitted(toks, pos, toks.len() as int),
            postfix@ == spaced(out),
        decreases stack.len(),
    {
        let ghost before = stack@;
        let top = stack.pop().unwrap();
        postfix.append(operator_text(top));
        proof {
            lemma_emitted_pop(toks, pos, before);
            lemma_spaced_push(out, Token::Operator(top));
        }
        if stack.len() == 0 {
            proof {
                assert(toks.subrange(0, toks.len() as int) =~= toks);
            }
            return postfix;
        }
        postfix.append(" ");
        proof {
            reveal_strlit(" ");
            out = out.push(Token::Operator(top));
            pos = pos.drop_last();
        }
    }
}

/// Rewrites an infix expression into postfix text: the numerals in their
/// order and each operator behind its two operands, every token followed by
/// a space but for the operator at the very end. A leading minus sign is
/// read as a subtraction from zero.
pub fn to_postfix(infix: String) -> (postfix: String)
    requires
        is_infix(infix@),
    ensures
        postfix@ == postfix_text(infix@),
{
    let text = normalize(infix);
    convert(text.as_str())
}

} // verus!
