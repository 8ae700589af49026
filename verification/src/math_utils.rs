//! Elementary arithmetic helpers, each with an exact contract.

use vstd::prelude::*;

verus! {

/// The sum of two numbers.
pub fn add(a: i32, b: i32) -> (r: i32)
    requires
        i32::MIN <= a + b <= i32::MAX,
    ensures
        r == a + b,
{
    a + b
}

/// The product of two numbers.
pub fn multiply(a: i32, b: i32) -> (r: i32)
    requires
        i32::MIN <= a * b <= i32::MAX,
    ensures
        r == a * b,
{
    a * b
}

/// The square of a number.
pub fn square(x: i32) -> (r: i32)
    requires
        x * x <= i32::MAX,
    ensures
        r == x * x,
{
    proof {
        assert(x * x >= 0) by (nonlinear_arith);
    }
    x * x
}

/// The square of the sum of two numbers.
pub fn square_add(x: i32, y: i32) -> (r: i32)
    requires
        i32::MIN <= x + y <= i32::MAX,
        (x + y) * (x + y) <= i32::MAX,
    ensures
        r == (x + y) * (x + y),
{
    let s = crate::math_utils::add(x, y);
    proof {
        assert(s * s >= 0) by (nonlinear_arith);
    }
    crate::math_utils::multiply(s, s)
}

/// The base that `add_to_base` starts from.
pub fn base_value() -> (r: i32)
    ensures
        r == 10,
{
    10
}

/// Ten more than the argument.
pub fn add_to_base(x: i32) -> (r: i32)
    requires
        x + 10 <= i32::MAX,
    ensures
        r == x + 10,
{
    let base = crate::math_utils::base_value();
    base + x
}

} // verus!
