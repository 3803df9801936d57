//! The fraction-safe multiply-divide step.
//!
//! Given `f1`, `f2`, `d` with `d` dividing `f1 * f2` exactly, the step
//! computes `f1 * f2 / d` without ever holding a value larger than the
//! final quotient: `f1` and `d` are first reduced by their gcd, after
//! which the remaining divisor divides `f2` exactly.  The only way the
//! step can fail is that the quotient itself does not fit the width, and
//! that failure is reported as `None`.

use vstd::prelude::*;
use vstd::arithmetic::div_mod::lemma_fundamental_div_mod_converse;
use vstd::math::abs;
use crate::binom::lemma_mul_cancel;
use crate::gcd::gcd;
use crate::gcd::gcd128;
use crate::gcd::gcd_nat;
use crate::gcd::lemma_coprime_divides;
use crate::gcd::lemma_div_exact;
use crate::gcd::lemma_gcd_reduced;

verus! {

/// A negated exact multiple is still an exact multiple.
proof fn lemma_neg_mod(x: int, d: int)
    requires
        d >= 1,
        x % d == 0,
    ensures
        (-x) % d == 0,
{
    lemma_div_exact(x, d);
    assert(-x == (-(x / d)) * d + 0) by (nonlinear_arith)
        requires
            x == (x / d) * d,
    ;
    lemma_fundamental_div_mod_converse(-x, d, -(x / d), 0);
}

/// The heart of the step: with `g = gcd(a, d)`, the product
/// `(a / g) * (b / (d / g))` is exactly `a * b / d`, and both divisions
/// are exact.
proof fn lemma_muldiv_reduced(a: nat, b: nat, d: nat)
    requires
        d >= 1,
        ((a * b) as int) % (d as int) == 0,
    ensures
        gcd_nat(a, d) >= 1,
        d / gcd_nat(a, d) >= 1,
        (a / gcd_nat(a, d)) * (b / (d / gcd_nat(a, d))) == ((a * b) as int) / (d as int),
{
    lemma_gcd_reduced(a, d);
    let g = gcd_nat(a, d);
    let a1 = a / g;
    let d1 = d / g;
    lemma_div_exact(a as int, g as int);
    lemma_div_exact(d as int, g as int);
    lemma_div_exact((a * b) as int, d as int);
    let qq = ((a * b) as int) / (d as int);
    assert(a1 * b == qq * (d1 as int)) by (nonlinear_arith)
        requires
            a == a1 * (g as int),
            d == d1 * (g as int),
            (a * b) as int == qq * (d as int),
            g >= 1,
    ;
    lemma_fundamental_div_mod_converse((a1 * b) as int, d1 as int, qq, 0);
    lemma_coprime_divides(a1, d1, b as int);
    lemma_div_exact(b as int, d1 as int);
    let b1 = b / d1;
    assert(a1 * b1 == qq) by (nonlinear_arith)
        requires
            b == b1 * (d1 as int),
            a1 * b == qq * (d1 as int),
            d1 >= 1,
    ;
}

/// `f1 * f2 / d` over the native unsigned width, reducing `f1` and `d`
/// by their gcd before multiplying; `None` exactly when the quotient
/// exceeds `usize::MAX`.
pub fn mul_divu(f1: usize, f2: usize, d: usize) -> (r: Option<usize>)
    requires
        d >= 1,
        (f1 * f2) % (d as int) == 0,
    ensures
        ({
            let q = (f1 * f2) as int / (d as int);
            match r {
                Some(v) => q <= usize::MAX && v == q,
                None => q > usize::MAX,
            }
        }),
{
    let g = gcd(f1, d);
    proof {
        lemma_muldiv_reduced(f1 as nat, f2 as nat, d as nat);
    }
    let q1 = f1 / g;
    let q2 = f2 / (d / g);
    q1.checked_mul(q2)
}

/// `f1 * f2 / d` over 128-bit unsigned integers; `None` exactly when the
/// quotient exceeds `u128::MAX`.
pub fn mul_divu128(f1: u128, f2: u128, d: u128) -> (r: Option<u128>)
    requires
        d >= 1,
        (f1 * f2) % (d as int) == 0,
    ensures
        ({
            let q = (f1 * f2) as int / (d as int);
            match r {
                Some(v) => q <= u128::MAX && v == q,
                None => q > u128::MAX,
            }
        }),
{
    let g = gcd128(f1, d);
    proof {
        lemma_muldiv_reduced(f1 as nat, f2 as nat, d as nat);
    }
    let q1 = f1 / g;
    let q2 = f2 / (d / g);
    q1.checked_mul(q2)
}

/// The absolute value of a native signed integer, as the native
/// unsigned type (total: also defined at `isize::MIN`).
fn abs_usize(x: isize) -> (a: usize)
    ensures
        a == abs(x as int),
{
    if x >= 0 {
        x as usize
    } else {
        (-(x as i128)) as usize
    }
}

/// The absolute value of a 128-bit signed integer, as `u128` (total:
/// also defined at `i128::MIN`).
fn abs_u128(x: i128) -> (a: u128)
    ensures
        a == abs(x as int),
{
    if x >= 0 {
        x as u128
    } else if x == i128::MIN {
        170141183460469231731687303715884105728u128
    } else {
        (-x) as u128
    }
}

/// Relates a product of signed values to the product of their absolute
/// values, and carries exact divisibility over to the absolute values.
proof fn lemma_abs_product(x: int, y: int, d: int)
    requires
        d >= 1,
        (x * y) % d == 0,
    ensures
        ((abs(x) * abs(y)) as int) % d == 0,
        ((x < 0) != (y < 0)) ==> x * y == -((abs(x) * abs(y)) as int),
        !((x < 0) != (y < 0)) ==> x * y == (abs(x) * abs(y)) as int,
{
    let a = abs(x) as int;
    let b = abs(y) as int;
    assert(x * y == a * b || x * y == -(a * b)) by (nonlinear_arith)
        requires
            a == x || a == -x,
            b == y || b == -y,
    ;
    if x * y == -(a * b) {
        lemma_neg_mod(x * y, d);
        assert(-(x * y) == a * b);
    }
    assert(((x < 0) != (y < 0)) ==> x * y == -(a * b)) by (nonlinear_arith)
        requires
            a == abs(x),
            b == abs(y),
            a == x || a == -x,
            b == y || b == -y,
    ;
    assert(!((x < 0) != (y < 0)) ==> x * y == a * b) by (nonlinear_arith)
        requires
            a == abs(x),
            b == abs(y),
            a == x || a == -x,
            b == y || b == -y,
    ;
}

/// The signed quotient is the quotient of the absolute values with the
/// sign of the product put back.
proof fn lemma_signed_quotient(x: int, y: int, d: int)
    requires
        d >= 1,
        (x * y) % d == 0,
    ensures
        ((x < 0) != (y < 0)) ==> (x * y) / d == -(((abs(x) * abs(y)) as int) / d),
        !((x < 0) != (y < 0)) ==> (x * y) / d == ((abs(x) * abs(y)) as int) / d,
{
    lemma_abs_product(x, y, d);
    let p = (abs(x) * abs(y)) as int;
    lemma_div_exact(x * y, d);
    lemma_div_exact(p, d);
    if (x < 0) != (y < 0) {
        assert(((x * y) / d) * d == (-(p / d)) * d) by (nonlinear_arith)
            requires
                x * y == ((x * y) / d) * d,
                p == (p / d) * d,
                x * y == -p,
        ;
        lemma_mul_cancel((x * y) / d, -(p / d), d);
    } else {
        assert(((x * y) / d) * d == ((p / d)) * d) by (nonlinear_arith)
            requires
                x * y == ((x * y) / d) * d,
                p == (p / d) * d,
                x * y == p,
        ;
        lemma_mul_cancel((x * y) / d, p / d, d);
    }
}

/// `f1 * f2 / d` over the native signed width, with the gcd taken on
/// absolute values; `None` exactly when the quotient falls outside
/// `isize::MIN ..= isize::MAX`.
pub fn mul_divi(f1: isize, f2: isize, d: isize) -> (r: Option<isize>)
    requires
        d >= 1,
        (f1 * f2) % (d as int) == 0,
    ensures
        ({
            let q = (f1 * f2) as int / (d as int);
            match r {
                Some(v) => isize::MIN <= q <= isize::MAX && v == q,
                None => q < isize::MIN || q > isize::MAX,
            }
        }),
{
    let a = abs_usize(f1);
    let b = abs_usize(f2);
    let du = d as usize;
    proof {
        lemma_abs_product(f1 as int, f2 as int, d as int);
        lemma_signed_quotient(f1 as int, f2 as int, d as int);
        lemma_muldiv_reduced(a as nat, b as nat, du as nat);
    }
    let g = gcd(a, du);
    let q1 = a / g;
    let q2 = b / (du / g);
    let neg = (f1 < 0) != (f2 < 0);
    match q1.checked_mul(q2) {
        None => None,
        Some(p) => {
            if !neg {
                if p <= isize::MAX as usize {
                    Some(p as isize)
                } else {
                    None
                }
            } else {
                if p <= isize::MAX as usize {
                    Some(-(p as isize))
                } else if p == (isize::MAX as usize) + 1 {
                    Some(isize::MIN)
                } else {
                    None
                }
            }
        },
    }
}

/// `f1 * f2 / d` over 128-bit signed integers, with the gcd taken on
/// absolute values; `None` exactly when the quotient falls outside
/// `i128::MIN ..= i128::MAX`.
pub fn mul_divi128(f1: i128, f2: i128, d: i128) -> (r: Option<i128>)
    requires
        d >= 1,
        (f1 * f2) % (d as int) == 0,
    ensures
        ({
            let q = (f1 * f2) as int / (d as int);
            match r {
                Some(v) => i128::MIN <= q <= i128::MAX && v == q,
                None => q < i128::MIN || q > i128::MAX,
            }
        }),
{
    let a = abs_u128(f1);
    let b = abs_u128(f2);
    let du = d as u128;
    proof {
        lemma_abs_product(f1 as int, f2 as int, d as int);
        lemma_signed_quotient(f1 as int, f2 as int, d as int);
        lemma_muldiv_reduced(a as nat, b as nat, du as nat);
    }
    let g = gcd128(a, du);
    let q1 = a / g;
    let q2 = b / (du / g);
    let neg = (f1 < 0) != (f2 < 0);
    match q1.checked_mul(q2) {
        None => None,
        Some(p) => {
            if !neg {
                if p <= i128::MAX as u128 {
                    Some(p as i128)
                } else {
                    None
                }
            } else {
                if p <= i128::MAX as u128 {
                    Some(-(p as i128))
                } else if p == (i128::MAX as u128) + 1 {
                    Some(i128::MIN)
                } else {
                    None
                }
            }
        },
    }
}

} // verus!
