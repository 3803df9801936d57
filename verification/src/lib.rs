//! Binomial coefficients `n choose k` for unsigned integers and signed
//! integers, over every supported bit width, with exact overflow
//! detection.
//!
//! The computation never wraps: it either returns the exact coefficient
//! or reports `None`.  For unsigned inputs, `None` is returned exactly
//! when the result itself exceeds the output type.  For signed inputs,
//! `None` is returned exactly when some intermediate coefficient of the
//! running product falls outside the output type.

use vstd::prelude::*;
use vstd::arithmetic::div_mod::lemma_fundamental_div_mod_converse;
use vstd::arithmetic::div_mod::lemma_mod_multiples_basic;
use crate::binom::binom;
use crate::binom::pascal;
use crate::binom::lemma_binom_mono_n;
use crate::binom::lemma_binom_next_out;
use crate::binom::lemma_binom_one;
use crate::binom::lemma_binom_row_mono;
use crate::binom::lemma_binom_step;
use crate::binom::lemma_binom_sym;
use crate::binom::lemma_binom_zero;
use crate::binom::lemma_binom_above;
use crate::muldiv::mul_divi;
use crate::muldiv::mul_divi128;
use crate::muldiv::mul_divu;
use crate::muldiv::mul_divu128;

pub mod binom;
pub mod gcd;
pub mod muldiv;

verus! {

/// Whether `v` is representable as an `isize`.
pub open spec fn fits_isize(v: int) -> bool {
    isize::MIN <= v <= isize::MAX
}

/// Whether `v` is representable as an `i128`.
pub open spec fn fits_i128(v: int) -> bool {
    i128::MIN <= v <= i128::MAX
}

/// Trait for types that support the computation of a binomial coefficient.
pub trait Binomial {
    /// The result type.
    type Output;

    /// The type of the second argument.
    type SecondArg;

    /// The value that [`Binomial::binomial`] returns, as a mathematical
    /// function of the inputs.
    spec fn spec_binomial(self, k: Self::SecondArg) -> Option<Self::Output>;

    /// Computes the binomial coefficient `self choose k`.
    ///
    /// This method returns `None` in case of overflow.
    fn binomial(self, k: Self::SecondArg) -> (r: Option<Self::Output>)
        ensures
            r == self.spec_binomial(k),
    ;
}

impl Binomial for usize {
    type Output = usize;

    type SecondArg = usize;

    /// The exact coefficient when it fits the native width, `None` when
    /// it does not.
    open spec fn spec_binomial(self, k: usize) -> Option<usize> {
        if binom(self as int, k as int) <= usize::MAX {
            Some(binom(self as int, k as int) as usize)
        } else {
            None
        }
    }

    fn binomial(self, k: usize) -> (r: Option<usize>) {
        if k > self {
            proof {
                lemma_binom_above(self as int, k as int);
            }
            return Some(0);
        }
        // Symmetry shortcut: iterate over the smaller of k and self - k.
        let kk = if self - k < k {
            self - k
        } else {
            k
        };
        proof {
            if kk != k {
                lemma_binom_sym(self as int, k as int);
            }
            lemma_binom_zero(self as int);
        }
        let mut res: usize = 1;
        let mut i: usize = 0;
        while i < kk
            invariant
                i <= kk,
                2 * kk <= self,
                res == binom(self as int, i as int),
                binom(self as int, kk as int) == binom(self as int, k as int),
            decreases kk - i,
        {
            proof {
                lemma_binom_step(self as int, i as nat);
                lemma_mod_multiples_basic(binom(self as int, i as int + 1), i as int + 1);
                lemma_fundamental_div_mod_converse(
                    (res * (self - i)) as int,
                    i as int + 1,
                    binom(self as int, i as int + 1),
                    0,
                );
            }
            match mul_divu(res, self - i, i + 1) {
                Some(v) => {
                    res = v;
                },
                None => {
                    proof {
                        lemma_binom_row_mono(self as int, i as int + 1, kk as int);
                    }
                    return None;
                },
            }
            i = i + 1;
        }
        Some(res)
    }
}

impl Binomial for isize {
    type Output = isize;

    type SecondArg = isize;

    /// `Some(0)` for negative `k`; otherwise the exact coefficient,
    /// provided every intermediate coefficient `binom(self, j)` for
    /// `1 <= j <= k` fits the native signed width, and `None` otherwise.
    open spec fn spec_binomial(self, k: isize) -> Option<isize> {
        if k < 0 {
            Some(0isize)
        } else if forall|j: int| 1 <= j <= k ==> fits_isize(#[trigger] binom(self as int, j)) {
            Some(binom(self as int, k as int) as isize)
        } else {
            None
        }
    }

    fn binomial(self, k: isize) -> (r: Option<isize>) {
        if k < 0 {
            return Some(0);
        }
        proof {
            lemma_binom_zero(self as int);
        }
        let mut res: isize = 1;
        let mut i: isize = 0;
        while i < k
            invariant
                0 <= i <= k,
                res == binom(self as int, i as int),
                forall|j: int| 1 <= j <= i ==> fits_isize(#[trigger] binom(self as int, j)),
            decreases k - i,
        {
            let f2 = match self.checked_sub(i) {
                Some(v) => v,
                None => {
                    proof {
                        lemma_binom_next_out(self as int, i as int, isize::MAX as int);
                    }
                    return None;
                },
            };
            proof {
                lemma_binom_step(self as int, i as nat);
                lemma_mod_multiples_basic(binom(self as int, i as int + 1), i as int + 1);
                lemma_fundamental_div_mod_converse(
                    (res * f2) as int,
                    i as int + 1,
                    binom(self as int, i as int + 1),
                    0,
                );
            }
            match mul_divi(res, f2, i + 1) {
                Some(v) => {
                    res = v;
                },
                None => {
                    return None;
                },
            }
            i = i + 1;
        }
        Some(res)
    }
}

impl Binomial for u128 {
    type Output = u128;

    type SecondArg = u128;

    /// The exact coefficient when it fits 128 bits, `None` when it does
    /// not.
    open spec fn spec_binomial(self, k: u128) -> Option<u128> {
        if binom(self as int, k as int) <= u128::MAX {
            Some(binom(self as int, k as int) as u128)
        } else {
            None
        }
    }

    fn binomial(self, k: u128) -> (r: Option<u128>) {
        if k > self {
            proof {
                lemma_binom_above(self as int, k as int);
            }
            return Some(0);
        }
        // Symmetry shortcut: iterate over the smaller of k and self - k.
        let kk = if self - k < k {
            self - k
        } else {
            k
        };
        proof {
            if kk != k {
                lemma_binom_sym(self as int, k as int);
            }
            lemma_binom_zero(self as int);
        }
        let mut res: u128 = 1;
        let mut i: u128 = 0;
        while i < kk
            invariant
                i <= kk,
                2 * kk <= self,
                res == binom(self as int, i as int),
                binom(self as int, kk as int) == binom(self as int, k as int),
            decreases kk - i,
        {
            proof {
                lemma_binom_step(self as int, i as nat);
                lemma_mod_multiples_basic(binom(self as int, i as int + 1), i as int + 1);
                lemma_fundamental_div_mod_converse(
                    (res * (self - i)) as int,
                    i as int + 1,
                    binom(self as int, i as int + 1),
                    0,
                );
            }
            match mul_divu128(res, self - i, i + 1) {
                Some(v) => {
                    res = v;
                },
                None => {
                    proof {
                        lemma_binom_row_mono(self as int, i as int + 1, kk as int);
                    }
                    return None;
                },
            }
            i = i + 1;
        }
        Some(res)
    }
}

impl Binomial for i128 {
    type Output = i128;

    type SecondArg = i128;

    /// `Some(0)` for negative `k`; otherwise the exact coefficient,
    /// provided every intermediate coefficient `binom(self, j)` for
    /// `1 <= j <= k` fits 128 bits, and `None` otherwise.
    open spec fn spec_binomial(self, k: i128) -> Option<i128> {
        if k < 0 {
            Some(0i128)
        } else if forall|j: int| 1 <= j <= k ==> fits_i128(#[trigger] binom(self as int, j)) {
            Some(binom(self as int, k as int) as i128)
        } else {
            None
        }
    }

    fn binomial(self, k: i128) -> (r: Option<i128>) {
        if k < 0 {
            return Some(0);
        }
        proof {
            lemma_binom_zero(self as int);
        }
        let mut res: i128 = 1;
        let mut i: i128 = 0;
        while i < k
            invariant
                0 <= i <= k,
                res == binom(self as int, i as int),
                forall|j: int| 1 <= j <= i ==> fits_i128(#[trigger] binom(self as int, j)),
            decreases k - i,
        {
            let f2 = match self.checked_sub(i) {
                Some(v) => v,
                None => {
                    proof {
                        lemma_binom_next_out(self as int, i as int, i128::MAX as int);
                    }
                    return None;
                },
            };
            proof {
                lemma_binom_step(self as int, i as nat);
                lemma_mod_multiples_basic(binom(self as int, i as int + 1), i as int + 1);
                lemma_fundamental_div_mod_converse(
                    (res * f2) as int,
                    i as int + 1,
                    binom(self as int, i as int + 1),
                    0,
                );
            }
            match mul_divi128(res, f2, i + 1) {
                Some(v) => {
                    res = v;
                },
                None => {
                    return None;
                },
            }
            i = i + 1;
        }
        Some(res)
    }
}

impl Binomial for u8 {
    type Output = usize;

    type SecondArg = u8;

    /// The native-width computation on the widened operands.
    open spec fn spec_binomial(self, k: u8) -> Option<usize> {
        (self as usize).spec_binomial(k as usize)
    }

    fn binomial(self, k: u8) -> (r: Option<usize>) {
        (self as usize).binomial(k as usize)
    }
}

impl Binomial for u16 {
    type Output = usize;

    type SecondArg = u16;

    /// The native-width computation on the widened operands.
    open spec fn spec_binomial(self, k: u16) -> Option<usize> {
        (self as usize).spec_binomial(k as usize)
    }

    fn binomial(self, k: u16) -> (r: Option<usize>) {
        (self as usize).binomial(k as usize)
    }
}

impl Binomial for u32 {
    type Output = usize;

    type SecondArg = u32;

    /// The native-width computation on the widened operands.
    open spec fn spec_binomial(self, k: u32) -> Option<usize> {
        (self as usize).spec_binomial(k as usize)
    }

    fn binomial(self, k: u32) -> (r: Option<usize>) {
        (self as usize).binomial(k as usize)
    }
}

impl Binomial for u64 {
    type Output = usize;

    type SecondArg = u64;

    /// The native-width computation on the operands converted to the
    /// native width.
    open spec fn spec_binomial(self, k: u64) -> Option<usize> {
        (self as usize).spec_binomial(k as usize)
    }

    fn binomial(self, k: u64) -> (r: Option<usize>) {
        (self as usize).binomial(k as usize)
    }
}

impl Binomial for i8 {
    type Output = isize;

    type SecondArg = i8;

    /// The native-width computation on the widened operands.
    open spec fn spec_binomial(self, k: i8) -> Option<isize> {
        (self as isize).spec_binomial(k as isize)
    }

    fn binomial(self, k: i8) -> (r: Option<isize>) {
        (self as isize).binomial(k as isize)
    }
}

impl Binomial for i16 {
    type Output = isize;

    type SecondArg = i16;

    /// The native-width computation on the widened operands.
    open spec fn spec_binomial(self, k: i16) -> Option<isize> {
        (self as isize).spec_binomial(k as isize)
    }

    fn binomial(self, k: i16) -> (r: Option<isize>) {
        (self as isize).binomial(k as isize)
    }
}

impl Binomial for i32 {
    type Output = isize;

    type SecondArg = i32;

    /// The native-width computation on the widened operands.
    open spec fn spec_binomial(self, k: i32) -> Option<isize> {
        (self as isize).spec_binomial(k as isize)
    }

    fn binomial(self, k: i32) -> (r: Option<isize>) {
        (self as isize).binomial(k as isize)
    }
}

impl Binomial for i64 {
    type Output = isize;

    type SecondArg = i64;

    /// The native-width computation on the operands converted to the
    /// native width.
    open spec fn spec_binomial(self, k: i64) -> Option<isize> {
        (self as isize).spec_binomial(k as isize)
    }

    fn binomial(self, k: i64) -> (r: Option<isize>) {
        (self as isize).binomial(k as isize)
    }
}

/// Symmetry: for `k <= n`, `n choose k` and `n choose (n - k)` agree,
/// overflow behaviour included.
pub proof fn lemma_binomial_symmetric(n: usize, k: usize)
    requires
        k <= n,
    ensures
        n.spec_binomial(k) == n.spec_binomial((n - k) as usize),
{
    lemma_binom_sym(n as int, k as int);
}

/// For `k > n` the unsigned coefficient is 0, and never overflows.
pub proof fn lemma_binomial_above(n: usize, k: usize)
    requires
        k > n,
    ensures
        n.spec_binomial(k) == Some(0usize),
{
    lemma_binom_above(n as int, k as int);
}

/// For negative `k` the signed coefficient is 0.
pub proof fn lemma_binomial_negative_k(n: isize, k: isize)
    requires
        k < 0,
    ensures
        n.spec_binomial(k) == Some(0isize),
{
}

/// `n choose 0 == 1` and `n choose 1 == n`.
pub proof fn lemma_binomial_small_k(n: usize)
    ensures
        n.spec_binomial(0) == Some(1usize),
        n.spec_binomial(1) == Some(n),
{
    lemma_binom_zero(n as int);
    lemma_binom_one(n as int);
}

/// `n choose 0 == 1` and `n choose 1 == n`, for signed `n`; neither
/// value can overflow the native signed width.
pub proof fn lemma_binomial_small_k_signed(n: isize)
    ensures
        n.spec_binomial(0) == Some(1isize),
        n.spec_binomial(1) == Some(n),
{
    lemma_binom_zero(n as int);
    lemma_binom_one(n as int);
}

/// Pascal's identity: `binom(n, k) == binom(n-1, k-1) + binom(n-1, k)`
/// for `n >= 1` and `1 <= k <= n`.  The contracts of
/// [`Binomial::binomial`] are stated over `binom`, so this relates the
/// results of three independent calls.
pub proof fn lemma_binomial_pascal(n: int, k: int)
    requires
        n >= 1,
        1 <= k <= n,
    ensures
        binom(n, k) == binom(n - 1, k - 1) + binom(n - 1, k),
{
    assert(pascal(n as nat, k as nat) == pascal((n - 1) as nat, (k - 1) as nat) + pascal(
        (n - 1) as nat,
        k as nat,
    ));
}

/// Symmetry for the 128-bit unsigned width.
pub proof fn lemma_binomial_symmetric_u128(n: u128, k: u128)
    requires
        k <= n,
    ensures
        n.spec_binomial(k) == n.spec_binomial((n - k) as u128),
{
    lemma_binom_sym(n as int, k as int);
}

/// For `k > n` the 128-bit unsigned coefficient is 0.
pub proof fn lemma_binomial_above_u128(n: u128, k: u128)
    requires
        k > n,
    ensures
        n.spec_binomial(k) == Some(0u128),
{
    lemma_binom_above(n as int, k as int);
}

/// For negative `k` the 128-bit signed coefficient is 0.
pub proof fn lemma_binomial_negative_k_i128(n: i128, k: i128)
    requires
        k < 0,
    ensures
        n.spec_binomial(k) == Some(0i128),
{
}

/// `n choose 0 == 1` and `n choose 1 == n` for 128-bit signed `n`.
pub proof fn lemma_binomial_small_k_i128(n: i128)
    ensures
        n.spec_binomial(0) == Some(1i128),
        n.spec_binomial(1) == Some(n),
{
    lemma_binom_zero(n as int);
    lemma_binom_one(n as int);
}

/// The overflow threshold is monotonic in `n`: if `n choose k`
/// overflows the native unsigned width, then so does `(n+1) choose k`.
pub proof fn lemma_binomial_overflow_monotone(n: usize, k: usize)
    requires
        n < usize::MAX,
        n.spec_binomial(k) is None,
    ensures
        ((n + 1) as usize).spec_binomial(k) is None,
{
    lemma_binom_mono_n(n as int, k as int);
}

} // verus!
