//! The four operations on two operands.

use vstd::prelude::*;
use core::ops::{Add, Div, Mul, Sub};
use crate::operators::operator_char;

verus! {

/// Applies `operator` to `x` and `y` with the operations that the type `V`
/// brings along: `x + y`, `x - y`, `x * y` or `x / y`, each as `V` specifies
/// it. For a character that is no operator the answer is what `V::default`
/// gives, which is zero for the number types.
pub fn evaluate<V>(x: V, y: V, operator: char) -> (r: V)
    where V: Add<Output = V> + Sub<Output = V> + Mul<Output = V> + Div<Output = V> + Default
    requires
        operator == '+' ==> call_requires(V::add, (x, y)),
        operator == '-' ==> call_requires(V::sub, (x, y)),
        operator == '*' ==> call_requires(V::mul, (x, y)),
        operator == '/' ==> call_requires(V::div, (x, y)),
    ensures
        operator == '+' ==> call_ensures(V::add, (x, y), r),
        operator == '-' ==> call_ensures(V::sub, (x, y), r),
        operator == '*' ==> call_ensures(V::mul, (x, y), r),
        operator == '/' ==> call_ensures(V::div, (x, y), r),
        !operator_char(operator) ==> call_ensures(V::default, (), r),
{
    match operator {
        '+' => x + y,
        '-' => x - y,
        '*' => x * y,
        '/' => x / y,
        _ => V::default(),
    }
}

} // verus!
