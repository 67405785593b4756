//! A stateless integer calculator: addition, subtraction, multiplication,
//! and a partial division that treats a zero divisor as an expected,
//! non-exceptional outcome.

use vstd::prelude::*;

verus! {

/// Truncated-toward-zero quotient, the convention of machine integer
/// division: the magnitude quotient with the sign of the exact quotient.
pub open spec fn trunc_div(a: int, b: int) -> int {
    let m = abs_int(a) / abs_int(b);
    if (a < 0) != (b < 0) {
        -m
    } else {
        m
    }
}

pub open spec fn abs_int(a: int) -> int {
    if a < 0 {
        -a
    } else {
        a
    }
}

/// A stateless calculator; it exists only as a namespace for four pure
/// arithmetic operations.
#[derive(Debug)]
pub struct Calculator;

impl Calculator {
    /// Adds two numbers. Overflow is ruled out by the precondition: the
    /// mathematical sum must fit the result type.
    pub fn add(a: i32, b: i32) -> (r: i32)
        requires
            i32::MIN <= a + b <= i32::MAX,
        ensures
            r == a + b,
    {
        a + b
    }

    /// Subtracts two numbers. Overflow is ruled out by the precondition.
    pub fn subtract(a: i32, b: i32) -> (r: i32)
        requires
            i32::MIN <= a - b <= i32::MAX,
        ensures
            r == a - b,
    {
        a - b
    }

    /// Multiplies two numbers. Overflow is ruled out by the precondition.
    pub fn multiply(a: i32, b: i32) -> (r: i32)
        requires
            i32::MIN <= a * b <= i32::MAX,
        ensures
            r == a * b,
    {
        a * b
    }

    /// Divides two numbers, returning the truncated-toward-zero quotient,
    /// or `None` for a zero divisor. The one overflowing input pair is
    /// ruled out by the precondition.
    pub fn divide(a: i32, b: i32) -> (r: Option<i32>)
        requires
            !(a == i32::MIN && b == -1),
        ensures
            b == 0 ==> r is None,
            b != 0 ==> r == Some(trunc_div(a as int, b as int) as i32),
    {
        if b == 0 {
            None
        } else {
            let mag_a: u32 = if a >= 0 {
                a as u32
            } else {
                (-(a as i64)) as u32
            };
            let mag_b: u32 = if b >= 0 {
                b as u32
            } else {
                (-(b as i64)) as u32
            };
            let q: u32 = mag_a / mag_b;
            proof {
                assert(mag_a == abs_int(a as int));
                assert(mag_b == abs_int(b as int));
                assert(q == abs_int(a as int) / abs_int(b as int));
                assert(q <= mag_a) by {
                    vstd::arithmetic::div_mod::lemma_div_basics_5(mag_a as int, mag_b as int);
                }
            }
            if (a < 0) != (b < 0) {
                Some((-(q as i64)) as i32)
            } else {
                Some(q as i32)
            }
        }
    }
}

} // verus!
