//! Greatest common divisors, with the facts needed to justify the
//! gcd-reduced multiply-divide step: a gcd divides both arguments, it is
//! an integer linear combination of them, and after dividing both
//! arguments by it they are coprime.

use vstd::prelude::*;
use vstd::arithmetic::div_mod::lemma_fundamental_div_mod;
use vstd::arithmetic::div_mod::lemma_mod_multiples_basic;
use vstd::arithmetic::div_mod::lemma_mod_self_0;
use vstd::arithmetic::div_mod::lemma_small_mod;
use crate::binom::lemma_mul_cancel;

verus! {

/// The Euclidean greatest common divisor.
pub open spec fn gcd_nat(a: nat, b: nat) -> nat
    decreases b,
{
    if b == 0 {
        a
    } else {
        gcd_nat(b, a % b)
    }
}

/// An integer linear combination of `a` and `b`.
pub open spec fn lin(a: nat, b: nat, x: int, y: int) -> int {
    a * x + b * y
}

/// An exact division can be undone by multiplication.
pub proof fn lemma_div_exact(x: int, d: int)
    requires
        d >= 1,
        x % d == 0,
    ensures
        x == (x / d) * d,
{
    lemma_fundamental_div_mod(x, d);
    assert(x == (x / d) * d) by (nonlinear_arith)
        requires
            x == d * (x / d) + x % d,
            x % d == 0,
    ;
}

/// The gcd divides both of its arguments, and is positive unless both are 0.
pub proof fn lemma_gcd_divides(a: nat, b: nat)
    ensures
        a > 0 || b > 0 ==> gcd_nat(a, b) >= 1,
        gcd_nat(a, b) >= 1 ==> (a as int) % (gcd_nat(a, b) as int) == 0,
        gcd_nat(a, b) >= 1 ==> (b as int) % (gcd_nat(a, b) as int) == 0,
    decreases b,
{
    if b == 0 {
        if a > 0 {
            lemma_mod_self_0(a as int);
            lemma_small_mod(0, a);
        }
    } else {
        lemma_gcd_divides(b, a % b);
        let g = gcd_nat(a, b);
        assert(g == gcd_nat(b, a % b));
        assert(g >= 1);
        lemma_fundamental_div_mod(a as int, b as int);
        lemma_div_exact(b as int, g as int);
        lemma_div_exact((a % b) as int, g as int);
        let q = a as int / b as int;
        let t = (b / g) * q + (a % b) / g;
        assert(a == t * (g as int)) by (nonlinear_arith)
            requires
                a == (b as int) * q + (a % b),
                b == (b / g) * (g as int),
                (a % b) as int == ((a % b) / g) * (g as int),
                t == (b / g) * q + (a % b) / g,
        ;
        lemma_mod_multiples_basic(t, g as int);
    }
}

/// Bezout: the gcd is an integer linear combination of its arguments.
pub proof fn lemma_gcd_linear(a: nat, b: nat)
    ensures
        exists|x: int, y: int| gcd_nat(a, b) == #[trigger] lin(a, b, x, y),
    decreases b,
{
    if b == 0 {
        assert(lin(a, b, 1, 0) == a * 1 + b * 0);
        assert(a * 1 == a) by (nonlinear_arith);
        assert(b * 0 == 0) by (nonlinear_arith);
        assert(gcd_nat(a, b) == lin(a, b, 1, 0));
    } else {
        lemma_gcd_linear(b, a % b);
        let (x1, y1) = choose|x: int, y: int| gcd_nat(b, a % b) == #[trigger] lin(b, a % b, x, y);
        lemma_fundamental_div_mod(a as int, b as int);
        let q = a as int / b as int;
        assert(gcd_nat(a, b) == gcd_nat(b, a % b));
        assert(gcd_nat(a, b) == lin(a, b, y1, x1 - q * y1)) by (nonlinear_arith)
            requires
                gcd_nat(a, b) == b * x1 + (a % b) * y1,
                a == (b as int) * q + (a % b),
                lin(a, b, y1, x1 - q * y1) == a * y1 + b * (x1 - q * y1),
        ;
    }
}

/// Euclid's lemma: if `a` and `b` are coprime and `b` divides `a * c`,
/// then `b` divides `c`.
pub proof fn lemma_coprime_divides(a: nat, b: nat, c: int)
    requires
        b >= 1,
        gcd_nat(a, b) == 1,
        (a * c) % (b as int) == 0,
    ensures
        c % (b as int) == 0,
{
    lemma_gcd_linear(a, b);
    let (x, y) = choose|x: int, y: int| gcd_nat(a, b) == #[trigger] lin(a, b, x, y);
    lemma_div_exact(a * c, b as int);
    let t = (a * c) / (b as int);
    assert(c == (t * x + c * y) * (b as int)) by (nonlinear_arith)
        requires
            1 == a * x + b * y,
            a * c == t * (b as int),
    ;
    lemma_mod_multiples_basic(t * x + c * y, b as int);
}

/// Dividing two numbers by their gcd leaves them coprime.
pub proof fn lemma_gcd_reduced(a: nat, b: nat)
    requires
        b >= 1,
    ensures
        gcd_nat(a, b) >= 1,
        (a as int) % (gcd_nat(a, b) as int) == 0,
        (b as int) % (gcd_nat(a, b) as int) == 0,
        b / gcd_nat(a, b) >= 1,
        gcd_nat(a / gcd_nat(a, b), b / gcd_nat(a, b)) == 1,
{
    lemma_gcd_divides(a, b);
    let g = gcd_nat(a, b);
    lemma_div_exact(a as int, g as int);
    lemma_div_exact(b as int, g as int);
    let a1 = a / g;
    let b1 = b / g;
    assert(b1 >= 1) by (nonlinear_arith)
        requires
            b == b1 * (g as int),
            b >= 1,
    ;
    let h = gcd_nat(a1, b1);
    lemma_gcd_divides(a1, b1);
    lemma_div_exact(a1 as int, h as int);
    lemma_div_exact(b1 as int, h as int);
    lemma_gcd_linear(a, b);
    let (x, y) = choose|x: int, y: int| gcd_nat(a, b) == #[trigger] lin(a, b, x, y);
    assert(1 * (g as int) == (a1 * x + b1 * y) * (g as int)) by (nonlinear_arith)
        requires
            g == a * x + b * y,
            a == a1 * (g as int),
            b == b1 * (g as int),
    ;
    lemma_mul_cancel(1, a1 * x + b1 * y, g as int);
    let u = a1 / h;
    let v = b1 / h;
    assert(1 == (u * x + v * y) * (h as int)) by (nonlinear_arith)
        requires
            1 == a1 * x + b1 * y,
            a1 == u * (h as int),
            b1 == v * (h as int),
    ;
    assert(h == 1) by (nonlinear_arith)
        requires
            1 == (u * x + v * y) * (h as int),
            h >= 1,
    ;
}

/// The Euclidean algorithm on the native unsigned width.
pub fn gcd(n: usize, d: usize) -> (g: usize)
    ensures
        g == gcd_nat(n as nat, d as nat),
{
    let mut a = n;
    let mut b = d;
    while b != 0
        invariant
            gcd_nat(a as nat, b as nat) == gcd_nat(n as nat, d as nat),
        decreases b,
    {
        let r = a % b;
        proof {
            assert(gcd_nat(a as nat, b as nat) == gcd_nat(b as nat, (a % b) as nat));
        }
        a = b;
        b = r;
    }
    a
}

/// The Euclidean algorithm on 128-bit unsigned integers.
pub fn gcd128(n: u128, d: u128) -> (g: u128)
    ensures
        g == gcd_nat(n as nat, d as nat),
{
    let mut a = n;
    let mut b = d;
    while b != 0
        invariant
            gcd_nat(a as nat, b as nat) == gcd_nat(n as nat, d as nat),
        decreases b,
    {
        let r = a % b;
        proof {
            assert(gcd_nat(a as nat, b as nat) == gcd_nat(b as nat, (a % b) as nat));
        }
        a = b;
        b = r;
    }
    a
}

} // verus!
