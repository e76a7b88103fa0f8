//! 64-bit binary floating-point numbers, held as bit patterns.
//!
//! The order of two such numbers, and the exact half of one, follow from the
//! bits alone, so decisions on them need no floating-point arithmetic.

use vstd::arithmetic::power2::{
    lemma2_to64, lemma_pow2_adds, lemma_pow2_pos, lemma_pow2_unfold, pow2,
};
use vstd::prelude::*;

verus! {

/// The bit pattern of an IEEE 754 double-precision number.
#[derive(Debug, Clone, Copy, PartialEq, Eq, Structural)]
pub struct Real64 {
    pub bits: u64,
}

/// The sign bit.
pub const SIGN: u64 = 0x8000_0000_0000_0000;

/// The pattern of positive infinity.
pub const INFINITY: u64 = 0x7FF0_0000_0000_0000;

/// The leading bit of a significand.
pub const HIDDEN: u64 = 0x0010_0000_0000_0000;

/// The pattern of `1.0`.
pub const ONE: u64 = 0x3FF0_0000_0000_0000;

impl Real64 {
    /// The pattern without its sign.
    pub open spec fn magnitude(self) -> int {
        self.bits as int % SIGN as int
    }

    pub open spec fn negative(self) -> bool {
        self.bits >= SIGN
    }

    pub open spec fn nan(self) -> bool {
        self.magnitude() > INFINITY
    }

    /// Neither an infinity nor NaN.
    pub open spec fn finite(self) -> bool {
        self.magnitude() < INFINITY
    }

    /// An integer that orders the numbers as their values do; both zeros share
    /// the key 0.
    pub open spec fn key(self) -> int {
        if self.negative() {
            -self.magnitude()
        } else {
            self.magnitude()
        }
    }

    /// `self < other`, false where either is NaN.
    pub open spec fn less(self, other: Real64) -> bool {
        !self.nan() && !other.nan() && self.key() < other.key()
    }

    /// `self <= other`, false where either is NaN.
    pub open spec fn at_most(self, other: Real64) -> bool {
        !self.nan() && !other.nan() && self.key() <= other.key()
    }

    /// Greater than zero.
    pub open spec fn positive(self) -> bool {
        !self.nan() && self.key() > 0
    }

    /// Half of the number, rounded to the nearest representable one, ties to
    /// even. Only a subnormal result is ever rounded.
    pub open spec fn halved(self) -> Real64 {
        let m = self.magnitude();
        let sign = self.bits as int - m;
        let h = if m >= INFINITY {
            m
        } else if m >= 0x0020_0000_0000_0000 {
            m - 0x0010_0000_0000_0000
        } else if m % 2 == 1 && (m / 2) % 2 == 1 {
            m / 2 + 1
        } else {
            m / 2
        };
        Real64 { bits: (sign + h) as u64 }
    }

    /// The number with the other sign.
    pub open spec fn negated(self) -> Real64 {
        Real64 {
            bits: (if self.negative() {
                self.bits - SIGN
            } else {
                self.bits + SIGN
            }) as u64,
        }
    }

    /// Three times the number, rounded to the nearest representable one, ties
    /// to even; an infinity where that is out of range.
    pub open spec fn tripled(self) -> Real64 {
        let m = self.magnitude();
        let sign = self.bits as int - m;
        let t = if m >= INFINITY {
            m
        } else {
            tripled_magnitude(m)
        };
        Real64 { bits: (sign + t) as u64 }
    }

    /// The number, or the nearer of `-limit` and `limit` where it lies beyond
    /// them.
    pub open spec fn clamped(self, limit: Real64) -> Real64 {
        if self.less(limit.negated()) {
            limit.negated()
        } else if limit.less(self) {
            limit
        } else {
            self
        }
    }

    fn mag(self) -> (r: u64)
        ensures
            r == self.magnitude(),
    {
        self.bits % SIGN
    }

    pub fn is_finite(self) -> (r: bool)
        ensures
            r == self.finite(),
    {
        self.mag() < INFINITY
    }

    pub fn lt(self, other: Real64) -> (r: bool)
        ensures
            r == self.less(other),
    {
        let a: u64 = self.mag();
        let b: u64 = other.mag();
        if a > INFINITY || b > INFINITY {
            false
        } else if self.bits >= SIGN {
            if other.bits >= SIGN {
                a > b
            } else {
                a > 0 || b > 0
            }
        } else if other.bits >= SIGN {
            false
        } else {
            a < b
        }
    }

    pub fn le(self, other: Real64) -> (r: bool)
        ensures
            r == self.at_most(other),
    {
        self.mag() <= INFINITY && other.mag() <= INFINITY && !other.lt(self)
    }

    pub fn is_positive(self) -> (r: bool)
        ensures
            r == self.positive(),
    {
        Real64 { bits: 0 }.lt(self)
    }

    pub fn half(self) -> (r: Real64)
        ensures
            r == self.halved(),
    {
        let m: u64 = self.mag();
        let sign: u64 = self.bits - m;
        let h: u64 = if m >= INFINITY {
            m
        } else if m >= 0x0020_0000_0000_0000 {
            m - 0x0010_0000_0000_0000
        } else if m % 2 == 1 && (m / 2) % 2 == 1 {
            m / 2 + 1
        } else {
            m / 2
        };
        Real64 { bits: sign + h }
    }

    pub fn negate(self) -> (r: Real64)
        ensures
            r == self.negated(),
    {
        if self.bits >= SIGN {
            Real64 { bits: self.bits - SIGN }
        } else {
            Real64 { bits: self.bits + SIGN }
        }
    }

    pub fn triple(self) -> (r: Real64)
        ensures
            r == self.tripled(),
    {
        let m: u64 = self.mag();
        if m >= INFINITY {
            return self;
        }
        let sign: u64 = self.bits - m;
        let raw: u64 = m / HIDDEN;
        let (exponent, significand): (u64, u64) = if raw == 0 {
            (1, m)
        } else {
            (raw, m % HIDDEN + HIDDEN)
        };
        let product: u64 = 3 * significand;
        let (shift, unit): (u64, u64) = if product < 2 * HIDDEN {
            (0, 1)
        } else if product < 4 * HIDDEN {
            (1, 2)
        } else {
            (2, 4)
        };
        let q: u64 = product / unit;
        let rest: u64 = product % unit;
        let rounded: u64 = if 2 * rest > unit || (2 * rest == unit && q % 2 == 1) {
            q + 1
        } else {
            q
        };
        assert(q <= product && rounded <= product + 1);
        let t: u64 = (exponent - 1 + shift) * HIDDEN + rounded;
        if t >= INFINITY {
            Real64 { bits: sign + INFINITY }
        } else {
            Real64 { bits: sign + t }
        }
    }

    pub fn clamp(self, limit: Real64) -> (r: Real64)
        ensures
            r == self.clamped(limit),
    {
        let low = limit.negate();
        if self.lt(low) {
            low
        } else if limit.lt(self) {
            limit
        } else {
            self
        }
    }
}

/// `x / unit`, rounded to the nearest integer, ties to even.
pub open spec fn rounded_quotient(x: int, unit: int) -> int {
    let q = x / unit;
    let rest = x % unit;
    if 2 * rest > unit || (2 * rest == unit && q % 2 == 1) {
        q + 1
    } else {
        q
    }
}

/// The pattern of three times the finite number with pattern `m`. A number
/// with exponent `e` and significand `s` has the pattern `(e - 1) * 2^52 + s`,
/// so a significand that is rounded up to the next power of two carries into
/// the exponent by itself.
pub open spec fn tripled_magnitude(m: int) -> int {
    let raw = m / HIDDEN as int;
    let exponent = if raw == 0 {
        1
    } else {
        raw
    };
    let significand = m - (exponent - 1) * HIDDEN;
    let product = 3 * significand;
    let t = if product < 2 * HIDDEN {
        (exponent - 1) * HIDDEN + product
    } else if product < 4 * HIDDEN {
        exponent * HIDDEN + rounded_quotient(product, 2)
    } else {
        (exponent + 1) * HIDDEN + rounded_quotient(product, 4)
    };
    if t >= INFINITY {
        INFINITY as int
    } else {
        t
    }
}

/// The bit pattern of an IEEE 754 single-precision number.
#[derive(Debug, Clone, Copy, PartialEq, Eq, Structural)]
pub struct Real32 {
    pub bits: u32,
}

impl Real32 {
    /// The pattern without its sign.
    pub open spec fn magnitude(self) -> int {
        self.bits as int % 0x8000_0000
    }

    pub open spec fn nan(self) -> bool {
        self.magnitude() > 0x7F80_0000
    }

    /// Neither an infinity nor NaN.
    pub open spec fn finite(self) -> bool {
        self.magnitude() < 0x7F80_0000
    }

    /// An integer that orders the numbers as their values do; both zeros share
    /// the key 0.
    pub open spec fn key(self) -> int {
        if self.bits >= 0x8000_0000 {
            -self.magnitude()
        } else {
            self.magnitude()
        }
    }

    /// `self < other`, false where either is NaN.
    pub open spec fn less(self, other: Real32) -> bool {
        !self.nan() && !other.nan() && self.key() < other.key()
    }

    /// Greater than zero.
    pub open spec fn positive(self) -> bool {
        !self.nan() && self.key() > 0
    }

    pub fn is_finite(self) -> (r: bool)
        ensures
            r == self.finite(),
    {
        self.bits % 0x8000_0000 < 0x7F80_0000
    }

    pub fn lt(self, other: Real32) -> (r: bool)
        ensures
            r == self.less(other),
    {
        let a: u32 = self.bits % 0x8000_0000;
        let b: u32 = other.bits % 0x8000_0000;
        if a > 0x7F80_0000 || b > 0x7F80_0000 {
            false
        } else if self.bits >= 0x8000_0000 {
            if other.bits >= 0x8000_0000 {
                a > b
            } else {
                a > 0 || b > 0
            }
        } else if other.bits >= 0x8000_0000 {
            false
        } else {
            a < b
        }
    }

    pub fn is_positive(self) -> (r: bool)
        ensures
            r == self.positive(),
    {
        Real32 { bits: 0 }.lt(self)
    }
}

/// The order is total on everything but NaN: of two numbers one is less, or
/// their keys are the same; and it is transitive.
pub proof fn law_order_is_total(a: Real64, b: Real64, c: Real64)
    requires
        !a.nan(),
        !b.nan(),
        !c.nan(),
    ensures
        a.less(b) || b.less(a) || a.key() == b.key(),
        !(a.less(b) && b.less(a)),
        a.less(b) && b.less(c) ==> a.less(c),
        a.at_most(b) <==> !b.less(a),
{
}

/// Nothing compares with NaN.
pub proof fn law_nan_is_unordered(a: Real64, b: Real64)
    requires
        a.nan(),
    ensures
        !a.less(b),
        !b.less(a),
        !a.at_most(b),
        !b.at_most(a),
{
}

/// Halving keeps the sign and never moves a finite number away from zero.
pub proof fn law_half_is_closer_to_zero(a: Real64)
    requires
        a.finite(),
    ensures
        a.halved().finite(),
        a.halved().magnitude() <= a.magnitude(),
        a.halved().negative() == a.negative(),
{
}

/// A clamped number lies between the two limits.
pub proof fn law_clamp_bounds(a: Real64, limit: Real64)
    requires
        !a.nan(),
        (Real64 { bits: 0 }).at_most(limit),
    ensures
        a.clamped(limit).magnitude() <= limit.magnitude(),
        limit.negated().at_most(a.clamped(limit)),
        a.clamped(limit).at_most(limit),
        limit.negated().at_most(a) && a.at_most(limit) ==> a.clamped(limit) == a,
{
}

/// Tripling keeps the sign and moves no number towards zero; three times a
/// positive number is positive.
pub proof fn law_triple_is_farther_from_zero(a: Real64)
    requires
        !a.nan(),
    ensures
        !a.tripled().nan(),
        a.tripled().negative() == a.negative(),
        a.tripled().magnitude() >= a.magnitude(),
        a.positive() ==> a.tripled().positive(),
{
}

/// Of two numbers that are not NaN, a negative one is less than one that is
/// not, unless both are zero; of two that are not negative, the one with the
/// lesser pattern is less, and of two negative ones the one with the greater.
pub proof fn law_order_follows_the_patterns(a: Real64, b: Real64)
    requires
        a.bits % 0x8000_0000_0000_0000 <= 0x7FF0_0000_0000_0000,
        b.bits % 0x8000_0000_0000_0000 <= 0x7FF0_0000_0000_0000,
    ensures
        a.bits < 0x8000_0000_0000_0000 && b.bits < 0x8000_0000_0000_0000 ==> (a.less(b) <==> a.bits
            < b.bits),
        a.bits >= 0x8000_0000_0000_0000 && b.bits >= 0x8000_0000_0000_0000 ==> (a.less(b)
            <==> a.bits > b.bits),
        a.bits >= 0x8000_0000_0000_0000 && b.bits < 0x8000_0000_0000_0000 ==> (a.less(b) <==> !(
        a.bits == 0x8000_0000_0000_0000 && b.bits == 0)),
        a.bits < 0x8000_0000_0000_0000 && b.bits >= 0x8000_0000_0000_0000 ==> !a.less(b),
        a.positive() <==> 0 < a.bits < 0x8000_0000_0000_0000,
        a.finite() <==> a.bits % 0x8000_0000_0000_0000 != 0x7FF0_0000_0000_0000,
        !a.nan(),
{
}

/// The same holds of single-precision numbers.
pub proof fn law_single_order_follows_the_patterns(a: Real32, b: Real32)
    requires
        a.bits % 0x8000_0000 <= 0x7F80_0000,
        b.bits % 0x8000_0000 <= 0x7F80_0000,
    ensures
        a.bits < 0x8000_0000 && b.bits < 0x8000_0000 ==> (a.less(b) <==> a.bits < b.bits),
        a.bits >= 0x8000_0000 && b.bits >= 0x8000_0000 ==> (a.less(b) <==> a.bits > b.bits),
        a.bits >= 0x8000_0000 && b.bits < 0x8000_0000 ==> (a.less(b) <==> !(a.bits == 0x8000_0000
            && b.bits == 0)),
        a.bits < 0x8000_0000 && b.bits >= 0x8000_0000 ==> !a.less(b),
        a.positive() <==> 0 < a.bits < 0x8000_0000,
        a.finite() <==> a.bits % 0x8000_0000 != 0x7F80_0000,
        !a.nan(),
{
}

/// The magnitude of a finite pattern in units of the least positive number.
pub open spec fn units(m: int) -> int {
    if m < 0x0010_0000_0000_0000 {
        m
    } else {
        (m % 0x0010_0000_0000_0000 + 0x0010_0000_0000_0000) * pow2(
            (m / 0x0010_0000_0000_0000 - 1) as nat,
        )
    }
}

/// Half of a number is exact, but for numbers too small to be halved in their
/// units: there it is the nearest, and the even one of two equally near.
pub proof fn law_half_is_nearest(a: Real64)
    requires
        a.finite(),
    ensures
        a.magnitude() >= 0x0020_0000_0000_0000 ==> 2 * units(a.halved().magnitude()) == units(
            a.magnitude(),
        ),
        a.magnitude() < 0x0020_0000_0000_0000 ==> {
            let h = a.halved().magnitude();
            &&& units(a.magnitude()) == a.magnitude()
            &&& units(h) == h
            &&& -1 <= 2 * h - a.magnitude() <= 1
            &&& a.magnitude() % 2 == 1 ==> h % 2 == 0
        },
{
    let m = a.magnitude();
    let h = a.halved().magnitude();
    lemma2_to64();
    if m >= 0x0020_0000_0000_0000 {
        assert(h == m - 0x0010_0000_0000_0000);
        let e = m / 0x0010_0000_0000_0000;
        let s = m % 0x0010_0000_0000_0000 + 0x0010_0000_0000_0000;
        assert(h / 0x0010_0000_0000_0000 == e - 1);
        assert(h % 0x0010_0000_0000_0000 == m % 0x0010_0000_0000_0000);
        lemma_pow2_unfold((e - 1) as nat);
        let p = pow2((e - 2) as nat) as int;
        assert(2 * (s * p) == s * (2 * p)) by (nonlinear_arith);
    } else {
        lemma_small_units(m);
        lemma_small_units(h);
    }
}

proof fn lemma_small_units(m: int)
    requires
        0 <= m < 0x0020_0000_0000_0000,
    ensures
        units(m) == m,
{
    lemma2_to64();
    if m >= 0x0010_0000_0000_0000 {
        assert(m / 0x0010_0000_0000_0000 == 1);
        assert(pow2(0) == 1);
        assert(m % 0x0010_0000_0000_0000 + 0x0010_0000_0000_0000 == m);
        assert(m * 1 == m) by (nonlinear_arith);
    }
}

/// The distance from a finite magnitude to the next in units of the least
/// positive number.
pub open spec fn spacing(m: int) -> int {
    if m < 0x0020_0000_0000_0000 {
        1
    } else {
        pow2((m / 0x0010_0000_0000_0000 - 1) as nat) as int
    }
}

/// Three times a number is the nearest there is, and the even one of two equally
/// near, as long as it is finite.
pub proof fn law_triple_is_nearest(a: Real64)
    requires
        a.finite(),
        a.tripled().finite(),
    ensures
        ({
            let t = a.tripled().magnitude();
            let off = units(t) - 3 * units(a.magnitude());
            &&& -spacing(t) <= 2 * off <= spacing(t)
            &&& 2 * off == spacing(t) || 2 * off == -spacing(t) ==> t % 2 == 0
        }),
{
    let h: int = 0x0010_0000_0000_0000;
    let m = a.magnitude();
    let t = a.tripled().magnitude();
    let raw = m / h;
    let e = if raw == 0 {
        1
    } else {
        raw
    };
    let sig = m - (e - 1) * h;
    let p = pow2((e - 1) as nat) as int;
    lemma2_to64();
    assert(units(m) == sig * p) by {
        if raw == 0 {
            assert(p == 1);
            assert(sig * 1 == sig) by (nonlinear_arith);
        }
    }
    let product = 3 * sig;
    assert(t == tripled_magnitude(m));
    assert(3 * (sig * p) == product * p) by (nonlinear_arith)
        requires
            product == 3 * sig,
    ;
    if product < 2 * h {
        assert(raw == 0);
        lemma_small_units(t);
    } else if product < 4 * h {
        let r = rounded_quotient(product, 2);
        lemma_rounded(product, 2);
        lemma_scaled(e, 1, r, product, t);
    } else {
        let r = rounded_quotient(product, 4);
        lemma_rounded(product, 4);
        lemma_scaled(e, 2, r, product, t);
    }
}

proof fn lemma_rounded(x: int, unit: int)
    requires
        unit == 2 || unit == 4,
        0 <= x,
    ensures
        ({
            let off = rounded_quotient(x, unit) * unit - x;
            &&& -unit <= 2 * off <= unit
            &&& 2 * off == unit || 2 * off == -unit ==> rounded_quotient(x, unit) % 2 == 0
        }),
{
}

proof fn lemma_scaled(e: int, k: int, r: int, product: int, t: int)
    requires
        1 <= e,
        k == 1 || k == 2,
        0x0010_0000_0000_0000 <= r <= 0x0020_0000_0000_0000,
        t == (e - 1 + k) * 0x0010_0000_0000_0000 + r,
        ({
            let unit: int = if k == 1 {
                2
            } else {
                4
            };
            let off = r * unit - product;
            &&& -unit <= 2 * off <= unit
            &&& 2 * off == unit || 2 * off == -unit ==> r % 2 == 0
        }),
    ensures
        ({
            let off = units(t) - product * (pow2((e - 1) as nat) as int);
            &&& -spacing(t) <= 2 * off <= spacing(t)
            &&& 2 * off == spacing(t) || 2 * off == -spacing(t) ==> t % 2 == 0
        }),
{
    let h: int = 0x0010_0000_0000_0000;
    let unit: int = if k == 1 {
        2
    } else {
        4
    };
    let p = pow2((e - 1) as nat) as int;
    let q = pow2((e + k - 1) as nat) as int;
    lemma2_to64();
    lemma_pow2_adds((e - 1) as nat, k as nat);
    lemma_pow2_pos((e - 1) as nat);
    assert(q == p * unit);
    assert(units(t) == r * q) by {
        if r < 2 * h {
            assert(t / h == e + k);
            assert(t % h == r - h);
        } else {
            assert(t / h == e + k + 1);
            assert(t % h == 0);
            lemma_pow2_unfold((e + k) as nat);
            assert(h * (2 * q) == r * q) by (nonlinear_arith)
                requires
                    r == 2 * h,
            ;
        }
    }
    let off = r * unit - product;
    assert(r * q - product * p == off * p) by (nonlinear_arith)
        requires
            q == p * unit,
            off == r * unit - product,
    ;
    assert(-q <= 2 * (off * p) <= q) by (nonlinear_arith)
        requires
            q == p * unit,
            p > 0,
            -unit <= 2 * off <= unit,
    ;
    assert(spacing(t) == q || spacing(t) == 2 * q) by {
        if r < 2 * h {
            assert(t / h == e + k);
        } else {
            assert(t / h == e + k + 1);
            lemma_pow2_unfold((e + k) as nat);
        }
    }
    assert(q > 0) by (nonlinear_arith)
        requires
            q == p * unit,
            p > 0,
            unit > 0,
    ;
    if 2 * (off * p) == q || 2 * (off * p) == -q {
        assert(2 * off == unit || 2 * off == -unit) by (nonlinear_arith)
            requires
                q == p * unit,
                p > 0,
                2 * (off * p) == q || 2 * (off * p) == -q,
        ;
        assert(r % 2 == 0);
        assert(t % 2 == 0);
    }
}

} // verus!
