//! The mathematics of non-negative fractions: the model behind [`crate::rate::Rate`].

use vstd::prelude::*;
use vstd::arithmetic::div_mod::*;
use vstd::arithmetic::mul::*;

verus! {

/// The greatest common divisor of two naturals; `gcd(0, 0)` is `0`.
pub open spec fn gcd(a: nat, b: nat) -> nat
    decreases b,
{
    if b == 0 {
        a
    } else {
        gcd(b, a % b)
    }
}

/// A fraction `num / den`. It is valid when `num >= 0` and `den > 0`.
pub struct Frac {
    pub num: int,
    pub den: int,
}

impl Frac {
    pub open spec fn valid(self) -> bool {
        self.num >= 0 && self.den > 0
    }

    /// `n / d` in lowest terms.
    pub open spec fn lowest(n: int, d: int) -> Frac {
        let g = gcd(n as nat, d as nat) as int;
        Frac { num: n / g, den: d / g }
    }

    pub open spec fn from_int(n: int) -> Frac {
        Frac { num: n, den: 1 }
    }

    /// The two fractions denote the same number.
    pub open spec fn same(self, other: Frac) -> bool {
        self.num * other.den == other.num * self.den
    }

    /// `self` denotes a smaller number than `other`.
    pub open spec fn lt(self, other: Frac) -> bool {
        self.num * other.den < other.num * self.den
    }

    pub open spec fn is_zero(self) -> bool {
        self.num == 0
    }

    /// `self / by` in lowest terms; meaningful when `by` is not zero.
    pub open spec fn quotient(self, by: Frac) -> Frac {
        Frac::lowest(self.num * by.den, self.den * by.num)
    }

    /// The numerator of `self / by` after both numerators and both
    /// denominators have been freed of their common factors, and before the
    /// whole is brought to lowest terms.
    pub open spec fn cross_num(self, by: Frac) -> int {
        (self.num / (gcd(self.num as nat, by.num as nat) as int)) * (by.den / (gcd(
            self.den as nat,
            by.den as nat,
        ) as int))
    }

    /// The denominator that goes with [`Frac::cross_num`].
    pub open spec fn cross_den(self, by: Frac) -> int {
        (self.den / (gcd(self.den as nat, by.den as nat) as int)) * (by.num / (gcd(
            self.num as nat,
            by.num as nat,
        ) as int))
    }

    /// Whether `self / by` can be computed in signed 64-bit arithmetic.
    pub open spec fn quotient_fits(self, by: Frac) -> bool {
        self.cross_num(by) <= i64::MAX && self.cross_den(by) <= i64::MAX
    }

    /// The part of the number behind the point: `self` minus its floor.
    pub open spec fn fract(self) -> Frac {
        Frac { num: self.num % self.den, den: self.den }
    }

    /// The least integer that is not below `self`.
    pub open spec fn ceil(self) -> int {
        (self.num + self.den - 1) / self.den
    }

    /// Whether the ceiling can be computed in signed 64-bit arithmetic.
    pub open spec fn ceil_fits(self) -> bool {
        self.num + self.den <= i64::MAX
    }
}

/// The greatest common divisor divides both numbers, and is positive unless
/// both are zero.
pub proof fn lemma_gcd_divides(a: nat, b: nat)
    ensures
        a > 0 || b > 0 ==> gcd(a, b) > 0,
        gcd(a, b) > 0 ==> a % gcd(a, b) == 0 && b % gcd(a, b) == 0,
        gcd(a, b) <= a || a == 0,
        gcd(a, b) <= b || b == 0,
    decreases b,
{
    if b == 0 {
        if a > 0 {
            lemma_mod_self_0(a as int);
            lemma_small_mod(0, a);
        }
    } else {
        let r = a % b;
        lemma_mod_bound(a as int, b as int);
        lemma_gcd_divides(b, r);
        let g = gcd(b, r);
        assert(g > 0);
        lemma_fundamental_div_mod(a as int, b as int);
        // a = b * (a / b) + r, and g divides b and r
        let q = (a / b) as int;
        lemma_fundamental_div_mod(b as int, g as int);
        lemma_fundamental_div_mod(r as int, g as int);
        let kb = (b / g) as int;
        let kr = (r / g) as int;
        assert(b == g * kb);
        assert(r == g * kr);
        assert(a == g * (kb * q + kr)) by (nonlinear_arith)
            requires
                a == b * q + r,
                b == g * kb,
                r == g * kr,
        ;
        lemma_mod_multiples_basic(kb * q + kr, g as int);
        assert(a % g == 0) by {
            lemma_mul_is_commutative(g as int, kb * q + kr);
        }
        if a > 0 {
            lemma_mod_is_zero(a, g);
        }
        lemma_mod_is_zero(b, g);
    }
}

/// A quotient of valid fractions is valid, and positive if the dividend is.
pub proof fn lemma_quotient_valid(a: Frac, b: Frac)
    requires
        a.valid(),
        b.valid(),
        b.num > 0,
    ensures
        a.quotient(b).valid(),
        a.num > 0 ==> a.quotient(b).num > 0,
        a.quotient(b).num * (a.den * b.num) == a.quotient(b).den * (a.num * b.den),
{
    assert(a.num * b.den >= 0 && a.den * b.num > 0 && (a.num > 0 ==> a.num * b.den > 0))
        by (nonlinear_arith)
        requires
            a.num >= 0,
            a.den > 0,
            b.num > 0,
            b.den > 0,
    ;
    lemma_lowest_valid(a.num * b.den, a.den * b.num);
    let q = a.quotient(b);
    assert(q.num * (a.den * b.num) == q.den * (a.num * b.den)) by (nonlinear_arith)
        requires
            q.num * (a.den * b.num) == (a.num * b.den) * q.den,
    ;
}

/// A fraction brought to lowest terms is valid and denotes the same number.
pub proof fn lemma_lowest_valid(n: int, d: int)
    requires
        n >= 0,
        d > 0,
    ensures
        Frac::lowest(n, d).valid(),
        Frac::lowest(n, d).same(Frac { num: n, den: d }),
        Frac::lowest(n, d).num <= n,
        Frac::lowest(n, d).den <= d,
        n > 0 ==> Frac::lowest(n, d).num > 0,
{
    lemma_gcd_divides(n as nat, d as nat);
    let g = gcd(n as nat, d as nat) as int;
    lemma_fundamental_div_mod(n, g);
    lemma_fundamental_div_mod(d, g);
    let p = n / g;
    let q = d / g;
    assert(n == g * p);
    assert(d == g * q);
    assert(p >= 0 && q > 0 && p <= n && q <= d && (n > 0 ==> p > 0)) by (nonlinear_arith)
        requires
            n == g * p,
            d == g * q,
            g > 0,
            n >= 0,
            d > 0,
    ;
    assert(p * d == n * q) by (nonlinear_arith)
        requires
            n == g * p,
            d == g * q,
    ;
}

/// `k * m / m` in lowest terms is the integer `k`.
pub proof fn lemma_lowest_of_multiple(k: int, m: int)
    requires
        k >= 0,
        m > 0,
    ensures
        Frac::lowest(k * m, m) == Frac::from_int(k),
{
    lemma_mul_nonnegative(k, m);
    lemma_mod_multiples_basic(k, m);
    assert(((k * m) as nat) % (m as nat) == 0);
    assert(gcd((k * m) as nat, m as nat) == gcd(m as nat, 0));
    assert(gcd(m as nat, 0) == m);
    lemma_div_by_self(m);
    lemma_div_multiples_vanish(k, m);
    lemma_mul_is_commutative(k, m);
    assert((k * m) / m == k);
    assert(m / m == 1);
}

/// Among valid fractions, "smaller than" is transitive through "not larger than".
pub proof fn lemma_lt_transitive(a: Frac, b: Frac, c: Frac)
    requires
        a.valid(),
        b.valid(),
        c.valid(),
        a.lt(b),
        !c.lt(b),
    ensures
        a.lt(c),
{
    assert(a.num * c.den < c.num * a.den) by (nonlinear_arith)
        requires
            a.num * b.den < b.num * a.den,
            c.num * b.den >= b.num * c.den,
            a.num >= 0,
            b.num >= 0,
            c.num >= 0,
            a.den > 0,
            b.den > 0,
            c.den > 0,
    ;
}

} // verus!
