//! Exact throughput rates, computed with the rationals of the `num` crate.

use vstd::prelude::*;
use num::rational::Ratio;
use num::CheckedDiv;
use crate::fraction::{Frac, lemma_lowest_valid, lemma_quotient_valid};

verus! {

/// The fraction that a numerator and a denominator of machine integers denote.
pub open spec fn frac_of(parts: (i64, i64)) -> Frac {
    Frac { num: parts.0 as int, den: parts.1 as int }
}

/// `Ratio::new`: the fraction `numer / denom` brought to lowest terms.
#[verifier::external_body]
fn ratio_new(numer: i64, denom: i64) -> (r: (i64, i64))
    requires
        numer >= 0,
        denom > 0,
    ensures
        frac_of(r) == Frac::lowest(numer as int, denom as int),
{
    let ratio = Ratio::new(numer, denom);
    (*ratio.numer(), *ratio.denom())
}

/// `Ratio::from_integer`: the integer `n` over the denominator one.
#[verifier::external_body]
fn ratio_from_integer(n: i64) -> (r: (i64, i64))
    ensures
        frac_of(r) == Frac::from_int(n as int),
{
    let ratio = Ratio::from_integer(n);
    (*ratio.numer(), *ratio.denom())
}

/// `Ratio::checked_div`: `None` when the divisor is zero or when one of the
/// two products that the division forms leaves the range of `i64`; otherwise
/// the quotient in lowest terms.
#[verifier::external_body]
fn ratio_checked_div(a: (i64, i64), b: (i64, i64)) -> (r: Option<(i64, i64)>)
    requires
        a.0 >= 0,
        a.1 > 0,
        b.0 >= 0,
        b.1 > 0,
    ensures
        r is None <==> b.0 == 0 || !frac_of(a).quotient_fits(frac_of(b)),
        r matches Some(q) ==> frac_of(q) == frac_of(a).quotient(frac_of(b)),
{
    let quotient = Ratio::new_raw(a.0, a.1).checked_div(&Ratio::new_raw(b.0, b.1));
    quotient.map(|q| (*q.numer(), *q.denom()))
}

/// `Ratio::fract`: the remainder of the numerator by the denominator, over
/// the same denominator.
#[verifier::external_body]
fn ratio_fract(a: (i64, i64)) -> (r: (i64, i64))
    requires
        a.0 >= 0,
        a.1 > 0,
    ensures
        frac_of(r) == frac_of(a).fract(),
{
    let part = Ratio::new_raw(a.0, a.1).fract();
    (*part.numer(), *part.denom())
}

/// `Ratio::ceil`: the least integer not below the fraction, over the
/// denominator one. The crate adds numerator and denominator on the way,
/// so their sum has to fit.
#[verifier::external_body]
fn ratio_ceil(a: (i64, i64)) -> (r: (i64, i64))
    requires
        a.0 >= 0,
        a.1 > 0,
        a.0 + a.1 <= i64::MAX,
    ensures
        frac_of(r) == Frac::from_int(frac_of(a).ceil()),
{
    let up = Ratio::new_raw(a.0, a.1).ceil();
    (*up.numer(), *up.denom())
}

/// `<` on `Ratio`: whether the first fraction denotes the smaller number.
#[verifier::external_body]
fn ratio_lt(a: (i64, i64), b: (i64, i64)) -> (r: bool)
    requires
        a.0 >= 0,
        a.1 > 0,
        b.0 >= 0,
        b.1 > 0,
    ensures
        r == frac_of(a).lt(frac_of(b)),
{
    Ratio::new_raw(a.0, a.1) < Ratio::new_raw(b.0, b.1)
}

/// A non-negative exact rational: units produced or consumed per unit of time.
#[derive(Clone, Copy, Debug)]
pub struct Rate {
    numer: i64,
    denom: i64,
}

impl View for Rate {
    type V = Frac;

    closed spec fn view(&self) -> Frac {
        Frac { num: self.numer as int, den: self.denom as int }
    }
}

impl Rate {
    #[verifier::type_invariant]
    spec fn inv(self) -> bool {
        self.numer >= 0 && self.denom > 0
    }

    /// The rate `numer / denom` in lowest terms; `None` unless `numer` is
    /// non-negative and `denom` positive.
    pub fn new(numer: i64, denom: i64) -> (r: Option<Rate>)
        ensures
            r is Some <==> numer >= 0 && denom > 0,
            r matches Some(rate) ==> rate@ == Frac::lowest(numer as int, denom as int)
                && rate@.valid(),
    {
        if numer < 0 || denom <= 0 {
            return None;
        }
        let raw = ratio_new(numer, denom);
        proof {
            lemma_lowest_valid(numer as int, denom as int);
        }
        Some(Rate { numer: raw.0, denom: raw.1 })
    }

    /// The whole number `n` as a rate; `None` when `n` is above `i64::MAX`.
    pub fn from_integer(n: u64) -> (r: Option<Rate>)
        ensures
            r is Some <==> n <= i64::MAX,
            r matches Some(rate) ==> rate@ == Frac::from_int(n as int) && rate@.valid(),
    {
        if n > i64::MAX as u64 {
            return None;
        }
        let raw = ratio_from_integer(n as i64);
        Some(Rate { numer: raw.0, denom: raw.1 })
    }

    /// The numerator of the rate in lowest terms.
    pub fn numer(&self) -> (n: i64)
        ensures
            n == self@.num,
    {
        self.numer
    }

    /// The denominator that goes with the numerator.
    pub fn denom(&self) -> (d: i64)
        ensures
            d == self@.den,
    {
        self.denom
    }

    /// Whether the rate is zero.
    pub fn is_zero(&self) -> (z: bool)
        ensures
            z == self@.is_zero(),
            self@.valid(),
    {
        proof {
            use_type_invariant(self);
        }
        self.numer == 0
    }

    /// `self / by` in lowest terms; `None` when `by` is zero or the quotient
    /// cannot be computed in 64 bits.
    pub fn checked_div(&self, by: &Rate) -> (r: Option<Rate>)
        ensures
            self@.valid(),
            by@.valid(),
            r is Some <==> !by@.is_zero() && self@.quotient_fits(by@),
            r matches Some(q) ==> q@ == self@.quotient(by@) && q@.valid(),
    {
        proof {
            use_type_invariant(self);
            use_type_invariant(by);
        }
        match ratio_checked_div((self.numer, self.denom), (by.numer, by.denom)) {
            None => None,
            Some(q) => {
                proof {
                    lemma_quotient_valid(self@, by@);
                }
                Some(Rate { numer: q.0, denom: q.1 })
            },
        }
    }

    /// The part of the rate behind the point.
    pub fn fract(&self) -> (r: Rate)
        ensures
            self@.valid(),
            r@ == self@.fract(),
            r@.valid(),
    {
        proof {
            use_type_invariant(self);
        }
        let raw = ratio_fract((self.numer, self.denom));
        proof {
            vstd::arithmetic::div_mod::lemma_mod_bound(self.numer as int, self.denom as int);
        }
        Rate { numer: raw.0, denom: raw.1 }
    }

    /// The least whole number not below the rate; `None` when numerator and
    /// denominator together exceed `i64::MAX`.
    pub fn ceil(&self) -> (r: Option<u64>)
        ensures
            self@.valid(),
            r is Some <==> self@.ceil_fits(),
            r matches Some(n) ==> n == self@.ceil(),
    {
        proof {
            use_type_invariant(self);
        }
        if self.numer > i64::MAX - self.denom {
            return None;
        }
        let raw = ratio_ceil((self.numer, self.denom));
        Some(raw.0 as u64)
    }

    /// Whether `self` is the smaller rate.
    pub fn less_than(&self, other: &Rate) -> (r: bool)
        ensures
            self@.valid(),
            other@.valid(),
            r == self@.lt(other@),
    {
        proof {
            use_type_invariant(self);
            use_type_invariant(other);
        }
        ratio_lt((self.numer, self.denom), (other.numer, other.denom))
    }
}

} // verus!
