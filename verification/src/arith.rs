//! Small signed-integer helpers.

use vstd::arithmetic::div_mod::lemma_fundamental_div_mod;
use vstd::prelude::*;

verus! {

/// This function divides two numbers, rounding toward zero as the machine
/// division does: the quotient of the magnitudes, negated when the signs
/// differ. The divisor must not be zero, and the one quotient that does
/// not fit (the minimum value divided by minus one) is excluded.
pub fn div(a: i32, b: i32) -> (r: i32)
    requires
        b != 0,
        !(a == i32::MIN && b == -1),
    ensures
        a >= 0 && b > 0 ==> r == a as int / b as int,
        a < 0 && b > 0 ==> r == -(-(a as int) / b as int),
        a >= 0 && b < 0 ==> r == -(a as int / -(b as int)),
        a < 0 && b < 0 ==> r == -(a as int) / -(b as int),
{
    let neg = (a < 0) != (b < 0);
    let am: u64 = if a < 0 {
        (-(a as i64)) as u64
    } else {
        a as u64
    };
    let bm: u64 = if b < 0 {
        (-(b as i64)) as u64
    } else {
        b as u64
    };
    let q: u64 = am / bm;
    proof {
        lemma_fundamental_div_mod(am as int, bm as int);
        assert(q <= am) by (nonlinear_arith)
            requires
                am as int == bm as int * q as int + am as int % bm as int,
                1 <= bm,
                0 <= am as int % bm as int,
                0 <= q,
        ;
        if bm >= 2 {
            assert(2 * q <= am) by (nonlinear_arith)
                requires
                    am as int == bm as int * q as int + am as int % bm as int,
                    2 <= bm,
                    0 <= am as int % bm as int,
                    0 <= q,
            ;
        }
    }
    if neg {
        (-(q as i64)) as i32
    } else {
        q as i32
    }
}

/// This function subtracts two numbers.
pub fn sub(a: i32, b: i32) -> (r: i32)
    requires
        i32::MIN <= a - b <= i32::MAX,
    ensures
        r == a - b,
{
    a - b
}

} // verus!
