//! Which texts are infix expressions, and the check that tells so.

use vstd::prelude::*;
use crate::operators::{digit_char, is_digit, is_operator, operator_char};

verus! {

/// A text made of digits and operators only.
pub open spec fn in_alphabet(s: Seq<char>) -> bool {
    forall|i: int| 0 <= i < s.len() ==> digit_char(#[trigger] s[i]) || operator_char(s[i])
}

/// A non-empty text of digits and operators that starts and ends with a
/// digit and in which no two operators are adjacent.
pub open spec fn plain_infix(s: Seq<char>) -> bool {
    &&& s.len() > 0
    &&& in_alphabet(s)
    &&& digit_char(s[0])
    &&& digit_char(s.last())
    &&& forall|i: int| 0 < i < s.len() && operator_char(#[trigger] s[i]) ==> digit_char(s[i - 1])
}

/// The text with a `0` put in front of a leading minus sign, so that the
/// sign reads as a subtraction from zero.
pub open spec fn normalized(s: Seq<char>) -> Seq<char> {
    if s.len() > 0 && s[0] == '-' {
        seq!['0'] + s
    } else {
        s
    }
}

/// An infix expression: numerals separated by single operators, with an
/// optional minus sign in front of the first numeral.
pub open spec fn is_infix(s: Seq<char>) -> bool {
    plain_infix(normalized(s))
}

/// Why a text is not an infix expression.
#[derive(Clone, Copy, Debug, PartialEq, Eq, Structural)]
pub enum ParseError {
    /// The text is empty.
    EmptyExpression,
    /// The text holds a character that is neither a digit nor an operator.
    UnexpectedCharacter,
    /// An operator lacks a numeral on one of its sides.
    UnbalancedOperators,
}

/// What `validate` answers for the text `s`.
pub open spec fn verdict(s: Seq<char>) -> Result<(), ParseError> {
    if s.len() == 0 {
        Err(ParseError::EmptyExpression)
    } else if !in_alphabet(s) {
        Err(ParseError::UnexpectedCharacter)
    } else if !is_infix(s) {
        Err(ParseError::UnbalancedOperators)
    } else {
        Ok(())
    }
}

/// An operator may stand at index `i` of `s`: it follows a digit, or it is
/// a minus sign at the very front.
pub open spec fn operator_placed(s: Seq<char>, i: int) -> bool {
    if i == 0 {
        s[0] == '-'
    } else {
        digit_char(s[i - 1])
    }
}

/// An infix expression is a non-empty text over the alphabet that ends in a
/// digit and in which each operator is placed as `operator_placed` says.
pub proof fn lemma_infix_by_position(s: Seq<char>)
    ensures
        is_infix(s) <==> {
            &&& s.len() > 0
            &&& in_alphabet(s)
            &&& digit_char(s.last())
            &&& forall|i: int|
                0 <= i < s.len() && operator_char(#[trigger] s[i]) ==> operator_placed(s, i)
        },
{
    let n = normalized(s);
    if s.len() > 0 && s[0] == '-' {
        if is_infix(s) {
            assert forall|i: int| 0 <= i < s.len() implies digit_char(#[trigger] s[i])
                || operator_char(s[i]) by {
                assert(s[i] == n[i + 1]);
            }
            assert forall|i: int|
                0 <= i < s.len() && operator_char(#[trigger] s[i]) implies operator_placed(
                s,
                i,
            ) by {
                if i > 0 {
                    assert(operator_char(n[i + 1]));
                }
            }
        }
    }
}

/// The character at index `i` of an ASCII text.
pub(crate) fn char_at(s: &str, i: usize) -> (c: char)
    requires
        s.is_ascii(),
        i < s@.len(),
    ensures
        c == s@[i as int],
{
    let b = s.get_ascii(i);
    b as char
}

/// The number of characters of an ASCII text.
pub(crate) fn ascii_len(s: &str) -> (n: usize)
    requires
        s.is_ascii(),
    ensures
        n == s@.len(),
{
    s.as_bytes().len()
}

/// Checks that `infix` is an infix expression, and says what is wrong with
/// it where it is none.
pub fn validate(infix: &str) -> (r: Result<(), ParseError>)
    ensures
        r == verdict(infix@),
        r.is_ok() <==> is_infix(infix@),
{
    proof {
        lemma_infix_by_position(infix@);
    }
    if infix.is_empty() {
        return Err(ParseError::EmptyExpression);
    }
    if !infix.is_ascii() {
        return Err(ParseError::UnexpectedCharacter);
    }
    let n = ascii_len(infix);
    let mut placed = true;
    let mut previous_digit = false;
    let mut i: usize = 0;
    while i < n
        invariant
            infix.is_ascii(),
            n == infix@.len(),
            0 <= i <= n,
            forall|j: int| 0 <= j < i ==> digit_char(#[trigger] infix@[j]) || operator_char(infix@[j]),
            i > 0 ==> previous_digit == digit_char(infix@[i - 1]),
            placed <==> forall|j: int|
                0 <= j < i && operator_char(#[trigger] infix@[j]) ==> operator_placed(infix@, j),
        decreases n - i,
    {
        let c = char_at(infix, i);
        if is_digit(c) {
            previous_digit = true;
        } else if is_operator(c) {
            let here = if i == 0 {
                c == '-'
            } else {
                previous_digit
            };
            placed = placed && here;
            previous_digit = false;
        } else {
            proof {
                lemma_infix_by_position(infix@);
            }
            return Err(ParseError::UnexpectedCharacter);
        }
        i += 1;
    }
    if placed && previous_digit {
        Ok(())
    } else {
        Err(ParseError::UnbalancedOperators)
    }
}

} // verus!
