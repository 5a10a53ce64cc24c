//! The four binary operators and how tightly each of them binds.

use vstd::prelude::*;

verus! {

/// Whether `c` is one of the four operator characters.
pub open spec fn operator_char(c: char) -> bool {
    c == '+' || c == '-' || c == '*' || c == '/'
}

/// Whether `c` is a decimal digit.
pub open spec fn digit_char(c: char) -> bool {
    '0' <= c <= '9'
}

/// How tightly `c` binds: 1 for `+` and `-`, 2 for `*` and `/`, and -1 for
/// a character that is no operator.
pub open spec fn binding(c: char) -> int {
    if c == '+' || c == '-' {
        1
    } else if c == '*' || c == '/' {
        2
    } else {
        -1
    }
}

/// Tells whether `c` is one of `+`, `-`, `*`, `/`.
pub fn is_operator(c: char) -> (r: bool)
    ensures
        r == operator_char(c),
{
    c == '+' || c == '-' || c == '*' || c == '/'
}

/// Tells whether `c` is one of the digits `0` to `9`.
pub fn is_digit(c: char) -> (r: bool)
    ensures
        r == digit_char(c),
{
    '0' <= c && c <= '9'
}

/// The precedence of an operator: the higher, the earlier it is applied.
pub fn precedence(operator: char) -> (r: i8)
    ensures
        r == binding(operator),
{
    match operator {
        '+' => 1,
        '-' => 1,
        '*' => 2,
        '/' => 2,
        _ => -1,
    }
}

/// Multiplication and division bind equally, addition and subtraction bind
/// equally, and the first pair binds more tightly than the second. Every
/// operator has a positive precedence, and only an operator has one.
pub proof fn lemma_precedence_order()
    ensures
        binding('*') == binding('/'),
        binding('+') == binding('-'),
        binding('*') > binding('+'),
        forall|c: char| operator_char(c) <==> binding(c) > 0,
        forall|a: char, b: char|
            operator_char(a) && operator_char(b) && binding(a) > binding(b) ==> (a == '*' || a
                == '/') && (b == '+' || b == '-'),
{
}

} // verus!
