//! Fixed-point and per-million arithmetic, computed by `sp-arithmetic`.

use sp_arithmetic::FixedPointNumber;
use sp_arithmetic::FixedU128;
use vstd::prelude::*;

verus! {

/// The accuracy of `FixedU128`: the inner value of `1`.
pub const FIXED_ONE: u128 = 1_000_000_000_000_000_000u128;

/// The accuracy of `Permill`: the parts of `1`.
pub const PERMILL_ONE: u32 = 1_000_000u32;

/// `a * b / c`, rounded down.
pub open spec fn mul_div_floor(a: int, b: int, c: int) -> int {
    a * b / c
}

/// What `Permill::from_parts(parts) * n` gives: `n * parts / 1_000_000`,
/// rounded to the nearest integer, halves rounded down.
pub open spec fn permill_mul_spec(parts: int, n: int) -> int {
    n * parts / 1_000_000 + if (n * parts) % 1_000_000 > 500_000 { 1int } else { 0int }
}

/// `FixedU128::checked_from_rational(n, d)`, as an inner value: `None` when
/// `d == 0` or when `n / d` does not fit, else `n * 10^18 / d` rounded down.
#[verifier::external_body]
pub(crate) fn fixed_checked_from_rational(n: u128, d: u128) -> (r: Option<u128>)
    ensures
        d == 0 ==> r is None,
        d != 0 && mul_div_floor(n as int, FIXED_ONE as int, d as int) <= u128::MAX ==> r == Some(
            mul_div_floor(n as int, FIXED_ONE as int, d as int) as u128,
        ),
        d != 0 && mul_div_floor(n as int, FIXED_ONE as int, d as int) > u128::MAX ==> r is None,
{
    match FixedU128::checked_from_rational(n, d) {
        Some(x) => Some(x.into_inner()),
        None => None,
    }
}

/// `FixedU128::saturating_from_rational(n, d)`, as an inner value: like
/// `checked_from_rational`, but `u128::MAX` where the quotient does not fit.
/// It panics on `d == 0`, which `requires` leaves out.
#[verifier::external_body]
pub(crate) fn fixed_saturating_from_rational(n: u128, d: u128) -> (r: u128)
    requires
        d != 0,
    ensures
        mul_div_floor(n as int, FIXED_ONE as int, d as int) <= u128::MAX ==> r == mul_div_floor(
            n as int,
            FIXED_ONE as int,
            d as int,
        ),
        mul_div_floor(n as int, FIXED_ONE as int, d as int) > u128::MAX ==> r == u128::MAX,
{
    FixedU128::saturating_from_rational(n, d).into_inner()
}

/// `FixedU128::from_inner(inner).checked_mul_int(n)`: `inner * n / 10^18`
/// rounded down, `None` where that does not fit in `u128`.
#[verifier::external_body]
pub(crate) fn fixed_checked_mul_int(inner: u128, n: u128) -> (r: Option<u128>)
    ensures
        mul_div_floor(inner as int, n as int, FIXED_ONE as int) <= u128::MAX ==> r == Some(
            mul_div_floor(inner as int, n as int, FIXED_ONE as int) as u128,
        ),
        mul_div_floor(inner as int, n as int, FIXED_ONE as int) > u128::MAX ==> r is None,
{
    FixedU128::from_inner(inner).checked_mul_int(n)
}

/// `FixedU128::from_inner(inner).reciprocal()`, as an inner value: `None`
/// for zero, else `10^36 / inner` rounded down, `None` where that does not fit.
#[verifier::external_body]
pub(crate) fn fixed_reciprocal(inner: u128) -> (r: Option<u128>)
    ensures
        inner == 0 ==> r is None,
        inner != 0 && mul_div_floor(FIXED_ONE as int, FIXED_ONE as int, inner as int) <= u128::MAX
            ==> r == Some(mul_div_floor(FIXED_ONE as int, FIXED_ONE as int, inner as int) as u128),
        inner != 0 && mul_div_floor(FIXED_ONE as int, FIXED_ONE as int, inner as int) > u128::MAX
            ==> r is None,
{
    match FixedU128::from_inner(inner).reciprocal() {
        Some(x) => Some(x.into_inner()),
        None => None,
    }
}

/// `Permill::from_parts(parts) * n` (the `Mul` impl, which rounds to the
/// nearest integer, halves down).
#[verifier::external_body]
pub(crate) fn permill_mul(parts: u32, n: u128) -> (r: u128)
    requires
        parts <= PERMILL_ONE,
    ensures
        r == permill_mul_spec(parts as int, n as int),
{
    sp_arithmetic::Permill::from_parts(parts) * n
}

/// A proportion in parts per million.
#[derive(Clone, Copy, Debug, PartialEq, Eq)]
pub struct Permill {
    parts: u32,
}

impl Permill {
    #[verifier::type_invariant]
    spec fn inv(self) -> bool {
        self.parts <= PERMILL_ONE
    }

    /// The parts per million.
    pub closed spec fn spec_parts(self) -> u32 {
        self.parts
    }

    /// No part: `0`.
    pub fn zero() -> (r: Permill)
        ensures
            r.spec_parts() == 0,
    {
        Permill { parts: 0 }
    }

    /// All parts: `1`.
    pub fn one() -> (r: Permill)
        ensures
            r.spec_parts() == PERMILL_ONE,
    {
        Permill { parts: PERMILL_ONE }
    }

    /// `parts` parts per million, at most a million.
    pub fn from_parts(parts: u32) -> (r: Permill)
        ensures
            r.spec_parts() == if parts <= PERMILL_ONE { parts } else { PERMILL_ONE },
    {
        if parts <= PERMILL_ONE {
            Permill { parts }
        } else {
            Permill { parts: PERMILL_ONE }
        }
    }

    /// `percent` per cent, at most a hundred.
    pub fn from_percent(percent: u32) -> (r: Permill)
        ensures
            r.spec_parts() == (if percent <= 100 { percent } else { 100 }) * 10_000,
    {
        if percent <= 100 {
            Permill { parts: percent * 10_000 }
        } else {
            Permill { parts: PERMILL_ONE }
        }
    }

    /// The parts per million.
    pub fn deconstruct(&self) -> (r: u32)
        ensures
            r == self.spec_parts(),
            r <= PERMILL_ONE,
    {
        proof {
            use_type_invariant(self);
        }
        self.parts
    }

    /// What is left of the whole after this part: `1 - self`, in parts.
    pub fn complement_parts(&self) -> (r: u32)
        ensures
            r == PERMILL_ONE - self.spec_parts(),
            self.spec_parts() <= PERMILL_ONE,
    {
        proof {
            use_type_invariant(self);
        }
        PERMILL_ONE - self.parts
    }

    /// `self * n`, rounded to the nearest integer, halves down.
    pub fn mul(&self, n: u128) -> (r: u128)
        ensures
            r == permill_mul_spec(self.spec_parts() as int, n as int),
    {
        proof {
            use_type_invariant(self);
        }
        permill_mul(self.parts, n)
    }

}

/// An exchange rate: a non-negative fixed-point number with 18 decimals
/// (`FixedU128`), held by its inner value.
#[derive(Clone, Copy, Debug, PartialEq, Eq)]
pub struct ExchangeRate {
    pub inner: u128,
}

impl ExchangeRate {
    /// The inner value: the rate times `10^18`.
    pub open spec fn spec_inner(self) -> u128 {
        self.inner
    }

    /// The rate whose inner value is `inner`.
    pub fn from_inner(inner: u128) -> (r: ExchangeRate)
        ensures
            r.spec_inner() == inner,
    {
        ExchangeRate { inner }
    }

    /// The inner value: the rate times `10^18`.
    pub fn into_inner(&self) -> (r: u128)
        ensures
            r == self.spec_inner(),
    {
        self.inner
    }

    /// `n / d`, rounded down to 18 decimals; `None` where `d == 0` or the
    /// quotient does not fit.
    pub fn checked_from_rational(n: u128, d: u128) -> (r: Option<ExchangeRate>)
        ensures
            d == 0 ==> r is None,
            d != 0 && mul_div_floor(n as int, FIXED_ONE as int, d as int) <= u128::MAX ==> r
                == Some(
                ExchangeRate { inner: mul_div_floor(n as int, FIXED_ONE as int, d as int) as u128 },
            ),
            d != 0 && mul_div_floor(n as int, FIXED_ONE as int, d as int) > u128::MAX ==> r is None,
    {
        match fixed_checked_from_rational(n, d) {
            Some(inner) => Some(ExchangeRate { inner }),
            None => None,
        }
    }

    /// `n / d`, rounded down to 18 decimals, the largest rate where the
    /// quotient does not fit.
    pub fn saturating_from_rational(n: u128, d: u128) -> (r: ExchangeRate)
        requires
            d != 0,
        ensures
            mul_div_floor(n as int, FIXED_ONE as int, d as int) <= u128::MAX ==> r.spec_inner()
                == mul_div_floor(n as int, FIXED_ONE as int, d as int),
            mul_div_floor(n as int, FIXED_ONE as int, d as int) > u128::MAX ==> r.spec_inner()
                == u128::MAX,
    {
        ExchangeRate { inner: fixed_saturating_from_rational(n, d) }
    }
}

} // verus!
