//! The mathematical model: binomial coefficients over the integers.
//!
//! `binom(n, k)` is defined for every integer `n` and `k`.  For `n >= 0`
//! it is the classical Pascal-triangle coefficient; for `n < 0` it is the
//! generalized coefficient `n(n-1)...(n-k+1) / k!`, which alternates in
//! sign.  The connection to the falling-factorial formula is proved in
//! [`lemma_binom_fact`].

use vstd::prelude::*;

verus! {

/// `k!`, the factorial.
pub open spec fn fact(k: nat) -> nat
    decreases k,
{
    if k == 0 {
        1
    } else {
        k * fact((k - 1) as nat)
    }
}

/// The falling factorial `n * (n-1) * ... * (n-k+1)`.
pub open spec fn falling(n: int, k: nat) -> int
    decreases k,
{
    if k == 0 {
        1
    } else {
        falling(n, (k - 1) as nat) * (n - k + 1)
    }
}

/// The classical binomial coefficient for nonnegative `n`, by Pascal's rule.
pub open spec fn pascal(m: nat, k: nat) -> nat
    decreases m,
{
    if k == 0 {
        1
    } else if m == 0 {
        0
    } else {
        pascal((m - 1) as nat, (k - 1) as nat) + pascal((m - 1) as nat, k)
    }
}

/// The generalized binomial coefficient `n choose k` for all integers.
///
/// For `k < 0` it is 0.  For `n < 0` it follows the identity
/// `binom(n, k) == (-1)^k * binom(k - n - 1, k)`.
pub open spec fn binom(n: int, k: int) -> int {
    if k < 0 {
        0
    } else if n >= 0 {
        pascal(n as nat, k as nat) as int
    } else if k % 2 == 0 {
        pascal((k - n - 1) as nat, k as nat) as int
    } else {
        -(pascal((k - n - 1) as nat, k as nat) as int)
    }
}

/// Factorials are positive.
pub proof fn lemma_fact_pos(k: nat)
    ensures
        fact(k) >= 1,
    decreases k,
{
    if k > 0 {
        lemma_fact_pos((k - 1) as nat);
        assert(k * fact((k - 1) as nat) >= 1) by (nonlinear_arith)
            requires
                k >= 1,
                fact((k - 1) as nat) >= 1,
        ;
    }
}

/// Above the diagonal the coefficient vanishes.
pub proof fn lemma_pascal_above(m: nat, k: nat)
    requires
        k > m,
    ensures
        pascal(m, k) == 0,
    decreases m,
{
    if m > 0 {
        lemma_pascal_above((m - 1) as nat, (k - 1) as nat);
        lemma_pascal_above((m - 1) as nat, k);
    }
}

/// `m choose 1 == m`.
pub proof fn lemma_pascal_one(m: nat)
    ensures
        pascal(m, 1) == m,
    decreases m,
{
    if m > 0 {
        lemma_pascal_one((m - 1) as nat);
        assert(pascal((m - 1) as nat, 0) == 1);
    }
}

/// `m choose m == 1`.
pub proof fn lemma_pascal_diag(m: nat)
    ensures
        pascal(m, m) == 1,
    decreases m,
{
    if m > 0 {
        lemma_pascal_diag((m - 1) as nat);
        lemma_pascal_above((m - 1) as nat, m);
    }
}

/// On and below the diagonal the coefficient is positive.
pub proof fn lemma_pascal_pos(m: nat, k: nat)
    requires
        k <= m,
    ensures
        pascal(m, k) >= 1,
    decreases m,
{
    if k > 0 {
        lemma_pascal_pos((m - 1) as nat, (k - 1) as nat);
    }
}

/// Cancelling a common nonzero factor.
pub proof fn lemma_mul_cancel(a: int, b: int, c: int)
    by (nonlinear_arith)
    requires
        c != 0,
        a * c == b * c,
    ensures
        a == b,
{
}

/// The falling factorial can also be peeled from the head:
/// `n * (n-1) * ... * (n-k+1) == n * ((n-1) * ... * (n-1-(k-1)+1))`.
pub proof fn lemma_falling_head(n: int, k: nat)
    requires
        k >= 1,
    ensures
        falling(n, k) == n * falling(n - 1, (k - 1) as nat),
    decreases k,
{
    if k == 1 {
        assert(falling(n, 1) == falling(n, 0) * (n - 1 + 1));
        assert(falling(n - 1, 0) == 1);
    } else {
        lemma_falling_head(n, (k - 1) as nat);
        let a = falling(n - 1, (k - 2) as nat);
        assert(falling(n, (k - 1) as nat) == n * a);
        assert(falling(n - 1, (k - 1) as nat) == a * (n - k + 1));
        assert((n * a) * (n - k + 1) == n * (a * (n - k + 1))) by (nonlinear_arith);
    }
}

/// For nonnegative `n` the falling factorial is `pascal(n, k) * k!`.
pub proof fn lemma_falling_pascal(m: nat, k: nat)
    ensures
        falling(m as int, k) == pascal(m, k) * fact(k),
    decreases m,
{
    if k == 0 {
        assert(pascal(m, 0) * fact(0) == 1) by (nonlinear_arith)
            requires
                pascal(m, 0) == 1,
                fact(0) == 1,
        ;
    } else if m == 0 {
        lemma_falling_head(0, k);
        assert(0 * falling(-1, (k - 1) as nat) == 0) by (nonlinear_arith);
        assert(pascal(0, k) == 0);
        assert(pascal(0, k) * fact(k) == 0) by (nonlinear_arith)
            requires
                pascal(0, k) == 0,
        ;
    } else {
        lemma_falling_pascal((m - 1) as nat, (k - 1) as nat);
        lemma_falling_pascal((m - 1) as nat, k);
        lemma_falling_head(m as int, k);
        let p1 = pascal((m - 1) as nat, (k - 1) as nat) as int;
        let p2 = pascal((m - 1) as nat, k) as int;
        let f1 = falling(m - 1, (k - 1) as nat);
        let fk1 = fact((k - 1) as nat) as int;
        assert(falling(m - 1, k) == f1 * (m - k));
        assert(fact(k) == k * fk1);
        assert(pascal(m, k) == p1 + p2);
        assert((p1 + p2) * (k * fk1) == m * f1) by (nonlinear_arith)
            requires
                f1 == p1 * fk1,
                p2 * (k * fk1) == f1 * ((m as int) - (k as int)),
        ;
        assert(falling(m as int, k) == m * f1);
        assert(pascal(m, k) * fact(k) == (p1 + p2) * (k * fk1)) by (nonlinear_arith)
            requires
                pascal(m, k) == p1 + p2,
                fact(k) == k * fk1,
        ;
    }
}

/// For negative `n` the falling factorial is, up to an alternating sign,
/// the falling factorial of `k - n - 1`.
pub proof fn lemma_falling_neg(n: int, k: nat)
    requires
        n < 0,
    ensures
        falling(n, k) == if k % 2 == 0 {
            falling(k - n - 1, k)
        } else {
            -falling(k - n - 1, k)
        },
    decreases k,
{
    if k >= 1 {
        lemma_falling_neg(n, (k - 1) as nat);
        lemma_falling_head(k - n - 1, k);
        let b = falling(k - n - 2, (k - 1) as nat);
        assert(falling(k - n - 1, k) == (k - n - 1) * b);
        if k % 2 == 0 {
            assert(falling(n, (k - 1) as nat) == -b);
            assert((-b) * (n - k + 1) == (k - n - 1) * b) by (nonlinear_arith);
        } else {
            assert(falling(n, (k - 1) as nat) == b);
            assert(b * (n - k + 1) == -((k - n - 1) * b)) by (nonlinear_arith);
        }
    }
}

/// The characterization from the textbook formula: for every integer `n`
/// and every `k >= 0`, `binom(n, k) * k! == n * (n-1) * ... * (n-k+1)`.
pub proof fn lemma_binom_fact(n: int, k: nat)
    ensures
        binom(n, k as int) * (fact(k) as int) == falling(n, k),
{
    if n >= 0 {
        lemma_falling_pascal(n as nat, k);
    } else {
        lemma_falling_neg(n, k);
        lemma_falling_pascal((k - n - 1) as nat, k);
        let p = pascal((k - n - 1) as nat, k) as int;
        let f = fact(k) as int;
        if k % 2 != 0 {
            assert((-p) * f == -(p * f)) by (nonlinear_arith);
        }
    }
}

/// One reduction step: `binom(n, j+1) * (j+1) == binom(n, j) * (n - j)`.
/// The division in the running-product algorithm is therefore exact.
pub proof fn lemma_binom_step(n: int, j: nat)
    ensures
        binom(n, j as int + 1) * (j + 1) == binom(n, j as int) * (n - j),
{
    lemma_binom_fact(n, j);
    lemma_binom_fact(n, (j + 1) as nat);
    lemma_fact_pos(j);
    let a = binom(n, j as int + 1);
    let b = binom(n, j as int);
    let ff = fact(j) as int;
    assert(falling(n, (j + 1) as nat) == falling(n, j) * (n - j));
    assert(fact((j + 1) as nat) == (j + 1) * fact(j));
    assert(a * (((j + 1) * ff) as int) == (b * ff) * (n - j)) by (nonlinear_arith)
        requires
            a * ((fact((j + 1) as nat)) as int) == falling(n, (j + 1) as nat),
            b * ff == falling(n, j),
            falling(n, (j + 1) as nat) == falling(n, j) * (n - j),
            (fact((j + 1) as nat)) as int == (j + 1) * ff,
    ;
    assert((a * (j + 1)) * ff == (b * (n - j)) * ff) by (nonlinear_arith)
        requires
            a * (((j + 1) * ff) as int) == (b * ff) * (n - j),
    ;
    lemma_mul_cancel(a * (j + 1), b * (n - j), ff);
}

/// Symmetry of the classical coefficient.
pub proof fn lemma_pascal_sym(m: nat, k: nat)
    requires
        k <= m,
    ensures
        pascal(m, k) == pascal(m, (m - k) as nat),
    decreases m,
{
    if m > 0 {
        if k == 0 {
            lemma_pascal_diag(m);
        } else if k == m {
            lemma_pascal_diag(m);
        } else {
            lemma_pascal_sym((m - 1) as nat, (k - 1) as nat);
            lemma_pascal_sym((m - 1) as nat, k);
        }
    }
}

/// `binom(n, 0) == 1` for every integer `n`.
pub proof fn lemma_binom_zero(n: int)
    ensures
        binom(n, 0) == 1,
{
    if n >= 0 {
        assert(pascal(n as nat, 0) == 1);
    } else {
        assert(pascal((0 - n - 1) as nat, 0) == 1);
    }
}

/// `binom(n, 1) == n` for every integer `n`.
pub proof fn lemma_binom_one(n: int)
    ensures
        binom(n, 1) == n,
{
    if n >= 0 {
        lemma_pascal_one(n as nat);
    } else {
        lemma_pascal_one((-n) as nat);
    }
}

/// `binom(n, k) == 0` whenever `0 <= n < k`.
pub proof fn lemma_binom_above(n: int, k: int)
    requires
        0 <= n < k,
    ensures
        binom(n, k) == 0,
{
    lemma_pascal_above(n as nat, k as nat);
}

/// Symmetry: `binom(n, k) == binom(n, n - k)` for `0 <= k <= n`.
pub proof fn lemma_binom_sym(n: int, k: int)
    requires
        0 <= k <= n,
    ensures
        binom(n, k) == binom(n, n - k),
{
    lemma_pascal_sym(n as nat, k as nat);
}

/// `binom(n, k) >= 1` for `0 <= k <= n`.
pub proof fn lemma_binom_pos(n: int, k: int)
    requires
        0 <= k <= n,
    ensures
        binom(n, k) >= 1,
{
    lemma_pascal_pos(n as nat, k as nat);
}

/// In the first half of a row the coefficients do not decrease.
pub proof fn lemma_binom_row_step(n: int, j: nat)
    requires
        2 * j + 1 <= n,
    ensures
        binom(n, j as int) <= binom(n, j as int + 1),
{
    lemma_binom_step(n, j);
    lemma_binom_pos(n, j as int);
    let a = binom(n, j as int + 1);
    let b = binom(n, j as int);
    assert(a >= b) by (nonlinear_arith)
        requires
            a * (j + 1) == b * (n - j),
            n - j >= j + 1,
            j + 1 >= 1,
            b >= 1,
    ;
}

/// Monotonicity along a row, up to the middle.
pub proof fn lemma_binom_row_mono(n: int, j: int, k: int)
    requires
        0 <= j <= k,
        2 * k <= n,
    ensures
        binom(n, j) <= binom(n, k),
    decreases k - j,
{
    if j < k {
        lemma_binom_row_step(n, (k - 1) as nat);
        lemma_binom_row_mono(n, j, k - 1);
    }
}

/// Monotonicity in `n` for nonnegative `n`.
pub proof fn lemma_binom_mono_n(n: int, k: int)
    requires
        n >= 0,
        k >= 0,
    ensures
        binom(n, k) <= binom(n + 1, k),
{
    if k >= 1 {
        assert(pascal((n + 1) as nat, k as nat) == pascal(n as nat, (k - 1) as nat) + pascal(
            n as nat,
            k as nat,
        ));
    }
}

/// Strictly inside a row, a coefficient is at least the row number.
pub proof fn lemma_pascal_ge_row(m: nat, j: nat)
    requires
        1 <= j,
        j + 1 <= m,
    ensures
        pascal(m, j) >= m,
    decreases m,
{
    if j == 1 {
        lemma_pascal_one(m);
    } else if j == m - 1 {
        lemma_pascal_sym(m, j);
        lemma_pascal_one(m);
    } else {
        lemma_pascal_ge_row((m - 1) as nat, (j - 1) as nat);
        lemma_pascal_ge_row((m - 1) as nat, j);
    }
}

/// If the next factor `n - i` already falls below `-(hi + 1)`, then the
/// next coefficient `binom(n, i + 1)` lies outside `[-(hi+1), hi]`.
pub proof fn lemma_binom_next_out(n: int, i: int, hi: int)
    requires
        hi >= 1,
        0 <= i <= hi - 1,
        -(hi + 1) <= n,
        n - i < -(hi + 1),
    ensures
        binom(n, i + 1) < -(hi + 1) || binom(n, i + 1) > hi,
{
    assert(i >= 1);
    assert(n <= -2) by {
        if n >= -1 {
            assert(n - i >= -1 - (hi - 1));
        }
    }
    let m = (i - n) as nat;
    lemma_pascal_ge_row(m, (i + 1) as nat);
    assert(m >= hi + 2);
    assert(((i + 1) - n - 1) as nat == m);
}

} // verus!
