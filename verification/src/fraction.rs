//! Exact fractions over 64-bit integers.
//!
//! A [`Fraction`] is a numerator over a positive denominator, both of
//! magnitude at most `i64::MAX`. Arithmetic is exact: every operation either
//! returns the exact result (reduced by the greatest common divisor of its
//! parts) or `None` when that result cannot be held in 64 bits.
use vstd::arithmetic::div_mod::{lemma_fundamental_div_mod, lemma_mod_bound};
use vstd::prelude::*;

verus! {

/// Largest magnitude of a numerator or a denominator.
pub const MAG: i64 = 0x7fff_ffff_ffff_ffff;

/// An exact result that does not fit in 64 bits.
#[derive(Clone, Copy, Debug, PartialEq, Eq, Structural)]
pub struct ArithOverflow;

/// A mathematical fraction `num / den`; meaningful when `den > 0`.
pub struct Ratio {
    pub num: int,
    pub den: int,
}

/// Absolute value.
pub open spec fn mag(x: int) -> int {
    if x < 0 {
        -x
    } else {
        x
    }
}

/// Bound on the parts of a fraction under which sums of products of such
/// fractions cannot overflow.
pub const SMALL: i64 = 0x10_0000;

/// The fraction `num / den`.
pub open spec fn ratio(num: int, den: int) -> Ratio {
    Ratio { num, den }
}

impl Ratio {
    pub open spec fn wf(self) -> bool {
        self.den > 0
    }

    pub open spec fn of_int(v: int) -> Ratio {
        Ratio { num: v, den: 1 }
    }

    pub open spec fn zero() -> Ratio {
        Ratio { num: 0, den: 1 }
    }

    pub open spec fn add(self, o: Ratio) -> Ratio {
        Ratio { num: self.num * o.den + o.num * self.den, den: self.den * o.den }
    }

    pub open spec fn neg(self) -> Ratio {
        Ratio { num: -self.num, den: self.den }
    }

    pub open spec fn sub(self, o: Ratio) -> Ratio {
        self.add(o.neg())
    }

    pub open spec fn mul(self, o: Ratio) -> Ratio {
        Ratio { num: self.num * o.num, den: self.den * o.den }
    }

    /// Division by a non-zero fraction, keeping the denominator positive.
    pub open spec fn div(self, o: Ratio) -> Ratio {
        if o.num > 0 {
            Ratio { num: self.num * o.den, den: self.den * o.num }
        } else {
            Ratio { num: -(self.num * o.den), den: -(self.den * o.num) }
        }
    }

    /// Same value.
    pub open spec fn eqv(self, o: Ratio) -> bool {
        self.num * o.den == o.num * self.den
    }

    pub open spec fn lt(self, o: Ratio) -> bool {
        self.num * o.den < o.num * self.den
    }

    pub open spec fn le(self, o: Ratio) -> bool {
        self.num * o.den <= o.num * self.den
    }

    /// Numerator and denominator both fit in 64 bits.
    pub open spec fn fits(self) -> bool {
        -MAG <= self.num <= MAG && 1 <= self.den <= MAG
    }

    /// Numerator and denominator of magnitude at most [`SMALL`].
    pub open spec fn small(self) -> bool {
        mag(self.num) <= SMALL && self.den <= SMALL
    }

    pub open spec fn is_int(self) -> bool {
        self.num % self.den == 0
    }
}

/// `eqv` is an equivalence relation on well-formed fractions.
pub proof fn lemma_eqv_refl(a: Ratio)
    ensures
        a.eqv(a),
{
}

pub proof fn lemma_eqv_sym(a: Ratio, b: Ratio)
    ensures
        a.eqv(b) == b.eqv(a),
{
}

pub proof fn lemma_eqv_trans(a: Ratio, b: Ratio, c: Ratio)
    requires
        b.wf(),
        a.eqv(b),
        b.eqv(c),
    ensures
        a.eqv(c),
{
    assert(a.num * c.den * b.den == c.num * a.den * b.den) by (nonlinear_arith)
        requires
            a.num * b.den == b.num * a.den,
            b.num * c.den == c.num * b.den,
    ;
    assert(a.num * c.den == c.num * a.den) by (nonlinear_arith)
        requires
            a.num * c.den * b.den == c.num * a.den * b.den,
            b.den > 0,
    ;
}

/// `le` and `lt` are transitive and compatible with `eqv`.
pub proof fn lemma_le_trans(a: Ratio, b: Ratio, c: Ratio)
    requires
        a.wf(),
        b.wf(),
        c.wf(),
        a.le(b),
        b.le(c),
    ensures
        a.le(c),
{
    assert(a.num * b.den * c.den <= b.num * a.den * c.den) by (nonlinear_arith)
        requires
            a.num * b.den <= b.num * a.den,
            c.den > 0,
    ;
    assert(b.num * c.den * a.den <= c.num * b.den * a.den) by (nonlinear_arith)
        requires
            b.num * c.den <= c.num * b.den,
            a.den > 0,
    ;
    assert(a.num * c.den <= c.num * a.den) by (nonlinear_arith)
        requires
            a.num * b.den * c.den <= b.num * a.den * c.den,
            b.num * c.den * a.den <= c.num * b.den * a.den,
            b.den > 0,
    ;
}

pub proof fn lemma_lt_le_trans(a: Ratio, b: Ratio, c: Ratio)
    requires
        a.wf(),
        b.wf(),
        c.wf(),
        a.lt(b),
        b.le(c),
    ensures
        a.lt(c),
{
    assert(a.num * b.den * c.den < b.num * a.den * c.den) by (nonlinear_arith)
        requires
            a.num * b.den < b.num * a.den,
            c.den > 0,
    ;
    assert(b.num * c.den * a.den <= c.num * b.den * a.den) by (nonlinear_arith)
        requires
            b.num * c.den <= c.num * b.den,
            a.den > 0,
    ;
    assert(a.num * c.den < c.num * a.den) by (nonlinear_arith)
        requires
            a.num * b.den * c.den < b.num * a.den * c.den,
            b.num * c.den * a.den <= c.num * b.den * a.den,
            b.den > 0,
    ;
}

pub proof fn lemma_le_lt_trans(a: Ratio, b: Ratio, c: Ratio)
    requires
        a.wf(),
        b.wf(),
        c.wf(),
        a.le(b),
        b.lt(c),
    ensures
        a.lt(c),
{
    assert(a.num * b.den * c.den <= b.num * a.den * c.den) by (nonlinear_arith)
        requires
            a.num * b.den <= b.num * a.den,
            c.den > 0,
    ;
    assert(b.num * c.den * a.den < c.num * b.den * a.den) by (nonlinear_arith)
        requires
            b.num * c.den < c.num * b.den,
            a.den > 0,
    ;
    assert(a.num * c.den < c.num * a.den) by (nonlinear_arith)
        requires
            a.num * b.den * c.den <= b.num * a.den * c.den,
            b.num * c.den * a.den < c.num * b.den * a.den,
            b.den > 0,
    ;
}

/// The order is total: exactly one of `a < b`, `a == b`, `b < a` holds.
pub proof fn lemma_trichotomy(a: Ratio, b: Ratio)
    ensures
        a.lt(b) || a.eqv(b) || b.lt(a),
        a.le(b) <==> (a.lt(b) || a.eqv(b)),
        !(a.lt(b) && b.le(a)),
{
}

/// Sums and products of well-formed fractions are well-formed.
pub proof fn lemma_ops_wf(a: Ratio, b: Ratio)
    requires
        a.wf(),
        b.wf(),
    ensures
        a.add(b).wf(),
        a.mul(b).wf(),
        a.neg().wf(),
        a.sub(b).wf(),
        b.num != 0 ==> a.div(b).wf(),
{
    assert(a.den * b.den > 0) by (nonlinear_arith)
        requires
            a.den > 0,
            b.den > 0,
    ;
    if b.num != 0 {
        assert(a.den * b.num > 0 || -(a.den * b.num) > 0) by (nonlinear_arith)
            requires
                a.den > 0,
                b.num != 0,
        ;
        if b.num > 0 {
            assert(a.den * b.num > 0) by (nonlinear_arith)
                requires
                    a.den > 0,
                    b.num > 0,
            ;
        } else {
            assert(a.den * b.num < 0) by (nonlinear_arith)
                requires
                    a.den > 0,
                    b.num < 0,
            ;
        }
    }
}

/// Adding fractions respects `eqv` in both arguments.
pub proof fn lemma_add_eqv(a: Ratio, a2: Ratio, b: Ratio, b2: Ratio)
    requires
        a.eqv(a2),
        b.eqv(b2),
    ensures
        a.add(b).eqv(a2.add(b2)),
{
    let (x, y, x2, y2) = (a.num, a.den, a2.num, a2.den);
    let (u, v, u2, v2) = (b.num, b.den, b2.num, b2.den);
    lemma_distr(x * v, u * y, y2 * v2);
    lemma_swap4(x, v, y2, v2);
    lemma_swap4(u, y, y2, v2);
    lemma_swap4(u, y, v2, y2);
    lemma_distr(x2 * v2, u2 * y2, y * v);
    lemma_swap4(x2, v2, y, v);
    lemma_swap4(u2, y2, y, v);
    lemma_swap4(x2, y, v2, v);
    lemma_swap4(u2, v, y2, y);
    lemma_swap4(u2, y2, v, y);
    assert((y2 * v2) == (v2 * y2)) by (nonlinear_arith);
    assert((y * v) == (v * y)) by (nonlinear_arith);
    assert(x * y2 == x2 * y);
    assert(u * v2 == u2 * v);
    assert((x * y2) * (v * v2) == (x2 * y) * (v * v2));
    assert((u * v2) * (y * y2) == (u2 * v) * (y * y2));
}

/// `(a + b) * c == a * c + b * c`.
pub proof fn lemma_distr(a: int, b: int, c: int)
    ensures
        (a + b) * c == a * c + b * c,
{
    assert((a + b) * c == a * c + b * c) by (nonlinear_arith);
}

/// `(a * b) * (c * d) == (a * c) * (b * d)`.
proof fn lemma_swap4(a: int, b: int, c: int, d: int)
    ensures
        (a * b) * (c * d) == (a * c) * (b * d),
        (a * b) * (c * d) == (a * d) * (b * c),
{
    assert((a * b) * (c * d) == (a * c) * (b * d)) by (nonlinear_arith);
    assert((a * b) * (c * d) == (a * d) * (b * c)) by (nonlinear_arith);
}

/// Adding the same fraction on both sides preserves `le` and `lt`.
pub proof fn lemma_add_monotone(a: Ratio, b: Ratio, c: Ratio)
    requires
        a.wf(),
        b.wf(),
        c.wf(),
    ensures
        a.le(b) ==> a.add(c).le(b.add(c)),
        a.lt(b) ==> a.add(c).lt(b.add(c)),
{
    let (x, y, u, v, p, q) = (a.num, a.den, b.num, b.den, c.num, c.den);
    assert(q * q > 0) by (nonlinear_arith)
        requires
            q > 0,
    ;
    lemma_distr(x * q, p * y, v * q);
    lemma_distr(u * q, p * v, y * q);
    lemma_swap4(x, q, v, q);
    lemma_swap4(u, q, y, q);
    lemma_swap4(p, y, v, q);
    lemma_swap4(p, v, y, q);
    assert((x * q) * (v * q) == (x * v) * (q * q));
    assert((u * q) * (y * q) == (u * y) * (q * q));
    assert((p * y) * (v * q) == (p * v) * (y * q));
    if a.le(b) {
        assert((x * v) * (q * q) <= (u * y) * (q * q)) by (nonlinear_arith)
            requires
                x * v <= u * y,
                q * q > 0,
        ;
    }
    if a.lt(b) {
        assert((x * v) * (q * q) < (u * y) * (q * q)) by (nonlinear_arith)
            requires
                x * v < u * y,
                q * q > 0,
        ;
    }
}

/// `eqv` values compare the same way.
pub proof fn lemma_eqv_order(a: Ratio, a2: Ratio, b: Ratio)
    requires
        a.wf(),
        a2.wf(),
        b.wf(),
        a.eqv(a2),
    ensures
        a.le(b) == a2.le(b),
        a.lt(b) == a2.lt(b),
        b.le(a) == b.le(a2),
        b.lt(a) == b.lt(a2),
{
    // a.num * a2.den == a2.num * a.den
    assert(a.num * b.den * a2.den == a2.num * b.den * a.den) by (nonlinear_arith)
        requires
            a.num * a2.den == a2.num * a.den,
    ;
    assert((a.num * b.den <= b.num * a.den) == (a2.num * b.den <= b.num * a2.den)) by (
    nonlinear_arith)
        requires
            a.num * b.den * a2.den == a2.num * b.den * a.den,
            a.den > 0,
            a2.den > 0,
    ;
    assert((a.num * b.den < b.num * a.den) == (a2.num * b.den < b.num * a2.den)) by (
    nonlinear_arith)
        requires
            a.num * b.den * a2.den == a2.num * b.den * a.den,
            a.den > 0,
            a2.den > 0,
    ;
    assert((b.num * a.den <= a.num * b.den) == (b.num * a2.den <= a2.num * b.den)) by (
    nonlinear_arith)
        requires
            a.num * b.den * a2.den == a2.num * b.den * a.den,
            a.den > 0,
            a2.den > 0,
    ;
    assert((b.num * a.den < a.num * b.den) == (b.num * a2.den < a2.num * b.den)) by (
    nonlinear_arith)
        requires
            a.num * b.den * a2.den == a2.num * b.den * a.den,
            a.den > 0,
            a2.den > 0,
    ;
}

/// An exact fraction: a numerator over a positive denominator, both of
/// magnitude at most [`MAG`].
#[derive(Clone, Copy, Debug, PartialEq, Eq, Hash)]
pub struct Fraction {
    num: i64,
    den: i64,
}

impl View for Fraction {
    type V = Ratio;

    closed spec fn view(&self) -> Ratio {
        Ratio {
            num: if self.num >= -MAG { self.num as int } else { -MAG as int },
            den: if self.den > 0 { self.den as int } else { 1 },
        }
    }
}

/// Every fraction's view fits in 64 bits (and so has a positive denominator).
pub broadcast proof fn lemma_fraction_fits(f: Fraction)
    ensures
        #[trigger] f@.fits(),
        f@.wf(),
{
}

/// The greatest common divisor of `a` and `b`, as Euclid's recurrence
/// defines it.
pub open spec fn euclid_gcd(a: nat, b: nat) -> nat
    decreases b,
{
    if b == 0 {
        a
    } else {
        euclid_gcd(b, a % b)
    }
}

/// Greatest common divisor of `a` and `b` by Euclid's algorithm.
fn gcd(a: u128, b: u128) -> (g: u128)
    requires
        b > 0,
    ensures
        g == euclid_gcd(a as nat, b as nat),
        g > 0,
{
    let mut x = a;
    let mut y = b;
    while y != 0
        invariant
            x > 0 || y > 0,
            euclid_gcd(x as nat, y as nat) == euclid_gcd(a as nat, b as nat),
        decreases y,
    {
        proof {
            lemma_mod_bound(x as int, y as int);
        }
        let r = x % y;
        x = y;
        y = r;
    }
    x
}

/// Builds the fraction `n / d` in lowest terms, or `None` when it does not fit.
fn reduce(n: i128, d: i128) -> (r: Option<Fraction>)
    requires
        d > 0,
        n > i128::MIN,
    ensures
        r matches Some(f) ==> f@.eqv(ratio(n as int, d as int)),
        r matches Some(f) ==> mag(f@.num) <= mag(n as int) && f@.den <= d,
        ratio(n as int, d as int).fits() ==> r is Some,
{
    let neg = n < 0;
    let an: u128 = if neg {
        (-n) as u128
    } else {
        n as u128
    };
    let ad: u128 = d as u128;
    let g = gcd(an, ad);
    let mut qn = an;
    let mut qd = ad;
    if an % g == 0 && ad % g == 0 {
        qn = an / g;
        qd = ad / g;
        proof {
            lemma_fundamental_div_mod(an as int, g as int);
            lemma_fundamental_div_mod(ad as int, g as int);
            assert(an == g * qn);
            assert(ad == g * qd);
            assert(qn <= an && 1 <= qd <= ad) by (nonlinear_arith)
                requires
                    an == g * qn,
                    ad == g * qd,
                    g >= 1,
                    qn >= 0,
                    qd >= 0,
                    ad >= 1,
            ;
            assert(qn * ad == an * qd) by (nonlinear_arith)
                requires
                    an == g * qn,
                    ad == g * qd,
            ;
        }
    }
    assert(qn * ad == an * qd);
    assert(qd >= 1);
    if qn <= (MAG as u128) && qd <= (MAG as u128) {
        let sn = qn as i64;
        let num = if neg {
            -sn
        } else {
            sn
        };
        let f = Fraction { num, den: qd as i64 };
        proof {
            if neg {
                assert(num * d == n * qd) by (nonlinear_arith)
                    requires
                        num == -qn,
                        an == -n,
                        qn * ad == an * qd,
                        ad == d,
                ;
            } else {
                assert(num * d == n * qd) by (nonlinear_arith)
                    requires
                        num == qn,
                        an == n,
                        qn * ad == an * qd,
                        ad == d,
                ;
            }
        }
        Some(f)
    } else {
        None
    }
}

impl Fraction {
    #[verifier::type_invariant]
    spec fn inv(self) -> bool {
        self.den > 0 && self.num >= -MAG
    }

    /// The integer `v`.
    pub fn from_int(v: i32) -> (r: Fraction)
        ensures
            r@ == Ratio::of_int(v as int),
            r == Fraction::from_int_spec(v),
    {
        Fraction { num: v as i64, den: 1 }
    }

    /// The integer `v` as built by [`Fraction::from_int`].
    pub closed spec fn from_int_spec(v: i32) -> Fraction {
        Fraction { num: v as i64, den: 1 }
    }

    /// Zero as built by [`Fraction::zero`].
    pub closed spec fn zero_spec() -> Fraction {
        Fraction { num: 0, den: 1 }
    }

    /// The integer `v`, which must not be `i64::MIN`.
    pub fn from_i64(v: i64) -> (r: Fraction)
        requires
            v >= -MAG,
        ensures
            r@ == Ratio::of_int(v as int),
    {
        Fraction { num: v, den: 1 }
    }

    /// Zero.
    pub fn zero() -> (r: Fraction)
        ensures
            r@ == Ratio::zero(),
            r == Fraction::zero_spec(),
    {
        Fraction { num: 0, den: 1 }
    }

    /// The fraction `num / den` in lowest terms; `None` when `den` is zero or
    /// a part is `i64::MIN`.
    pub fn new(num: i64, den: i64) -> (r: Option<Fraction>)
        ensures
            r is Some <==> (den != 0 && num != i64::MIN && den != i64::MIN),
            r matches Some(f) ==> f@.eqv(ratio(num as int, den as int)),
    {
        if den == 0 || num == i64::MIN || den == i64::MIN {
            return None;
        }
        let (n, d) = if den < 0 {
            (-(num as i128), -(den as i128))
        } else {
            (num as i128, den as i128)
        };
        let r = reduce(n, d);
        proof {
            assert(Ratio { num: n as int, den: d as int }.fits());
            if den < 0 {
                let f = r->0;
                assert(f@.num * den == num * f@.den) by (nonlinear_arith)
                    requires
                        f@.num * d == n * f@.den,
                        n == -num,
                        d == -den,
                ;
            }
        }
        r
    }

    /// The numerator.
    pub fn numer(&self) -> (r: i64)
        ensures
            r == self@.num,
    {
        proof {
            use_type_invariant(self);
        }
        self.num
    }

    /// The (positive) denominator.
    pub fn denom(&self) -> (r: i64)
        ensures
            r == self@.den,
    {
        proof {
            use_type_invariant(self);
        }
        self.den
    }

    pub fn is_zero(&self) -> (r: bool)
        ensures
            r == (self@.num == 0),
    {
        self.num == 0
    }

    pub fn is_positive(&self) -> (r: bool)
        ensures
            r == (self@.num > 0),
    {
        self.num > 0
    }

    pub fn is_negative(&self) -> (r: bool)
        ensures
            r == (self@.num < 0),
    {
        self.num < 0
    }

    /// Whether the fraction is a whole number.
    pub fn is_integer(&self) -> (r: bool)
        ensures
            r == self@.is_int(),
    {
        proof {
            use_type_invariant(self);
        }
        let d = self.den as u64;
        if self.num >= 0 {
            let a = self.num as u64;
            let m = a % d;
            proof {
                lemma_fundamental_div_mod(a as int, d as int);
                lemma_mod_bound(a as int, d as int);
            }
            m == 0
        } else {
            let a = (-self.num) as u64;
            let m = a % d;
            proof {
                let n = self.num as int;
                let dd = d as int;
                lemma_fundamental_div_mod(a as int, dd);
                lemma_mod_bound(a as int, dd);
                lemma_fundamental_div_mod(n, dd);
                lemma_mod_bound(n, dd);
                let q = (a as int) / dd;
                // n == -a == d * (-q) - m
                if m == 0 {
                    assert(n == dd * (-q)) by (nonlinear_arith)
                        requires
                            a == dd * q + m,
                            m == 0,
                            n == -a,
                    ;
                    assert(n % dd == 0) by (nonlinear_arith)
                        requires
                            n == dd * (n / dd) + n % dd,
                            0 <= n % dd < dd,
                            n == dd * (-q),
                    ;
                } else {
                    assert(n == dd * (-q - 1) + (dd - m)) by (nonlinear_arith)
                        requires
                            a == dd * q + m,
                            n == -a,
                    ;
                    assert(n % dd == dd - m) by (nonlinear_arith)
                        requires
                            n == dd * (n / dd) + n % dd,
                            0 <= n % dd < dd,
                            n == dd * (-q - 1) + (dd - m),
                            0 < m < dd,
                    ;
                }
            }
            m == 0
        }
    }

    /// `-self`.
    pub fn neg(&self) -> (r: Fraction)
        ensures
            r@ == self@.neg(),
    {
        proof {
            use_type_invariant(self);
        }
        Fraction { num: -self.num, den: self.den }
    }

    /// `self + other`, or `None` when the result does not fit.
    pub fn checked_add(&self, other: &Fraction) -> (r: Option<Fraction>)
        ensures
            r matches Some(f) ==> f@.eqv(self@.add(other@)),
            r matches Some(f) ==> mag(f@.num) <= mag(self@.add(other@).num) && f@.den <= self@.add(other@).den,
            self@.add(other@).fits() ==> r is Some,
    {
        proof {
            use_type_invariant(self);
            use_type_invariant(other);
        }
        let a = self.num as i128;
        let b = self.den as i128;
        let c = other.num as i128;
        let e = other.den as i128;
        proof {
            lemma_product_bounds(a as int, e as int);
            lemma_product_bounds(c as int, b as int);
            lemma_product_bounds(b as int, e as int);
            assert(b * e > 0) by (nonlinear_arith)
                requires
                    b > 0,
                    e > 0,
            ;
        }
        let n = a * e + c * b;
        let d = b * e;
        reduce(n, d)
    }

    /// `self - other`, or `None` when the result does not fit.
    pub fn checked_sub(&self, other: &Fraction) -> (r: Option<Fraction>)
        ensures
            r matches Some(f) ==> f@.eqv(self@.sub(other@)),
            self@.sub(other@).fits() ==> r is Some,
    {
        let m = other.neg();
        self.checked_add(&m)
    }

    /// `self * other`, or `None` when the result does not fit.
    pub fn checked_mul(&self, other: &Fraction) -> (r: Option<Fraction>)
        ensures
            r matches Some(f) ==> f@.eqv(self@.mul(other@)),
            r matches Some(f) ==> mag(f@.num) <= mag(self@.mul(other@).num) && f@.den <= self@.mul(other@).den,
            self@.mul(other@).fits() ==> r is Some,
    {
        proof {
            use_type_invariant(self);
            use_type_invariant(other);
        }
        let a = self.num as i128;
        let b = self.den as i128;
        let c = other.num as i128;
        let e = other.den as i128;
        proof {
            lemma_product_bounds(a as int, c as int);
            lemma_product_bounds(b as int, e as int);
            assert(b * e > 0) by (nonlinear_arith)
                requires
                    b > 0,
                    e > 0,
            ;
        }
        reduce(a * c, b * e)
    }

    /// `self / other` for a non-zero `other`, or `None` when the result does not fit.
    pub fn checked_div(&self, other: &Fraction) -> (r: Option<Fraction>)
        requires
            other@.num != 0,
        ensures
            r matches Some(f) ==> f@.eqv(self@.div(other@)),
            self@.div(other@).fits() ==> r is Some,
    {
        proof {
            use_type_invariant(self);
            use_type_invariant(other);
        }
        let a = self.num as i128;
        let b = self.den as i128;
        let c = other.num as i128;
        let e = other.den as i128;
        proof {
            lemma_product_bounds(a as int, e as int);
            lemma_product_bounds(b as int, c as int);
        }
        if c > 0 {
            proof {
                assert(b * c > 0) by (nonlinear_arith)
                    requires
                        b > 0,
                        c > 0,
                ;
            }
            reduce(a * e, b * c)
        } else {
            proof {
                assert(b * c < 0) by (nonlinear_arith)
                    requires
                        b > 0,
                        c < 0,
                ;
            }
            reduce(-(a * e), -(b * c))
        }
    }

    /// `1 / self` for a non-zero fraction.
    pub fn recip(&self) -> (r: Fraction)
        requires
            self@.num != 0,
        ensures
            r@.eqv(Ratio::of_int(1).div(self@)),
    {
        proof {
            use_type_invariant(self);
        }
        if self.num > 0 {
            Fraction { num: self.den, den: self.num }
        } else {
            Fraction { num: -self.den, den: -self.num }
        }
    }

    /// `self < other`.
    pub fn lt(&self, other: &Fraction) -> (r: bool)
        ensures
            r == self@.lt(other@),
    {
        proof {
            use_type_invariant(self);
            use_type_invariant(other);
            lemma_product_bounds(self.num as int, other.den as int);
            lemma_product_bounds(other.num as int, self.den as int);
        }
        (self.num as i128) * (other.den as i128) < (other.num as i128) * (self.den as i128)
    }

    /// `self <= other`.
    pub fn le(&self, other: &Fraction) -> (r: bool)
        ensures
            r == self@.le(other@),
    {
        proof {
            use_type_invariant(self);
            use_type_invariant(other);
            lemma_product_bounds(self.num as int, other.den as int);
            lemma_product_bounds(other.num as int, self.den as int);
        }
        (self.num as i128) * (other.den as i128) <= (other.num as i128) * (self.den as i128)
    }

    /// Whether the two fractions have the same value.
    pub fn eq_value(&self, other: &Fraction) -> (r: bool)
        ensures
            r == self@.eqv(other@),
    {
        proof {
            use_type_invariant(self);
            use_type_invariant(other);
            lemma_product_bounds(self.num as int, other.den as int);
            lemma_product_bounds(other.num as int, self.den as int);
        }
        (self.num as i128) * (other.den as i128) == (other.num as i128) * (self.den as i128)
    }

    /// The largest whole number not above `self`.
    pub fn floor(&self) -> (r: Fraction)
        ensures
            r@ == self.floor_spec(),
            r@.num * self@.den <= self@.num < (r@.num + 1) * self@.den,
    {
        let r = self.floor_impl();
        proof {
            lemma_fraction_fits(*self);
            let x = self@.num;
            let d = self@.den;
            let q = r@.num;
            assert(0 <= x - q * d < d) by (nonlinear_arith)
                requires
                    q * d <= x < (q + 1) * d,
            ;
            vstd::arithmetic::div_mod::lemma_fundamental_div_mod_converse_div(x, d, q, x - q * d);
        }
        r
    }

    fn floor_impl(&self) -> (r: Fraction)
        ensures
            r@.den == 1,
            r@.num * self@.den <= self@.num < (r@.num + 1) * self@.den,
    {
        proof {
            use_type_invariant(self);
        }
        let d = self.den as u64;
        if self.num >= 0 {
            let a = self.num as u64;
            let q = a / d;
            proof {
                lemma_fundamental_div_mod(a as int, d as int);
                lemma_mod_bound(a as int, d as int);
                assert(q <= a) by (nonlinear_arith)
                    requires
                        a == d * q + a % d,
                        0 <= a % d,
                        d >= 1,
                        q >= 0,
                ;
                assert(q * d <= a < (q + 1) * d) by (nonlinear_arith)
                    requires
                        a == d * q + a % d,
                        0 <= a % d < d,
                ;
            }
            Fraction { num: q as i64, den: 1 }
        } else {
            let a = (-self.num) as u64;
            let q = a / d;
            let m = a % d;
            proof {
                lemma_fundamental_div_mod(a as int, d as int);
                lemma_mod_bound(a as int, d as int);
                assert(q <= a) by (nonlinear_arith)
                    requires
                        a == d * q + m,
                        0 <= m,
                        d >= 1,
                        q >= 0,
                ;
            }
            if m == 0 {
                proof {
                    assert(-(q as int) * d <= self.num < (-(q as int) + 1) * d) by (nonlinear_arith)
                        requires
                            a == d * q + m,
                            m == 0,
                            self.num == -a,
                            d >= 1,
                    ;
                }
                Fraction { num: -(q as i64), den: 1 }
            } else {
                proof {
                    assert(q < a) by (nonlinear_arith)
                        requires
                            a == d * q + m,
                            0 < m,
                            d >= 1,
                            q >= 0,
                    ;
                    assert((-(q as int) - 1) * d <= self.num < (-(q as int)) * d) by (
                    nonlinear_arith)
                        requires
                            a == d * q + m,
                            0 < m < d,
                            self.num == -a,
                            d >= 1,
                    ;
                }
                Fraction { num: -(q as i64) - 1, den: 1 }
            }
        }
    }

    /// The smallest whole number not below `self`.
    pub fn ceil(&self) -> (r: Fraction)
        ensures
            r@.den == 1,
            (r@.num - 1) * self@.den < self@.num <= r@.num * self@.den,
    {
        let m = self.neg();
        let f = m.floor();
        let r = f.neg();
        proof {
            lemma_fraction_fits(*self);
            assert((r@.num - 1) * self@.den < self@.num <= r@.num * self@.den) by (nonlinear_arith)
                requires
                    f@.num * self@.den <= -self@.num < (f@.num + 1) * self@.den,
                    r@.num == -f@.num,
            ;
        }
        r
    }

    /// `self - floor(self)`, a value in `[0, 1)`.
    pub fn fract(&self) -> (r: Fraction)
        ensures
            r@.eqv(self@.sub(self.floor_spec())),
            Ratio::zero().le(r@),
            r@.lt(Ratio::of_int(1)),
    {
        let fl = self.floor();
        proof {
            use_type_invariant(self);
            lemma_fraction_fits(fl);
            // self - fl = (num - q*den) / den, with 0 <= num - q*den < den
            assert(self@.sub(fl@) == Ratio { num: self@.num - fl@.num * self@.den, den: self@.den }) by (nonlinear_arith)
                requires
                    fl@.den == 1,
            ;
        }
        let r = self.checked_sub(&fl);
        proof {
            let s = self@.sub(fl@);
            assert(s.fits()) by (nonlinear_arith)
                requires
                    s.num == self@.num - fl@.num * self@.den,
                    s.den == self@.den,
                    fl@.num * self@.den <= self@.num < (fl@.num + 1) * self@.den,
                    1 <= self@.den <= MAG,
            ;
        }
        let r = r.unwrap();
        proof {
            let s = self@.sub(fl@);
            assert(0 <= s.num < s.den) by (nonlinear_arith)
                requires
                    s.num == self@.num - fl@.num * self@.den,
                    s.den == self@.den,
                    fl@.num * self@.den <= self@.num < (fl@.num + 1) * self@.den,
            ;
            lemma_fraction_fits(r);
            assert(0 <= r@.num * s.den) by (nonlinear_arith)
                requires
                    r@.num * s.den == s.num * r@.den,
                    0 <= s.num,
                    r@.den > 0,
            ;
            assert(0 <= r@.num) by (nonlinear_arith)
                requires
                    0 <= r@.num * s.den,
                    s.den > 0,
            ;
            assert(r@.num < r@.den) by (nonlinear_arith)
                requires
                    r@.num * s.den == s.num * r@.den,
                    s.num < s.den,
                    r@.den > 0,
                    s.den > 0,
            ;
        }
        r
    }

    /// The floor of `self` as a fraction with denominator one.
    pub open spec fn floor_spec(self) -> Ratio {
        Ratio { num: self@.num / self@.den, den: 1 }
    }
}

/// Products of two 64-bit magnitudes fit in 127 bits.
proof fn lemma_product_bounds(a: int, b: int)
    requires
        -MAG <= a <= MAG,
        -MAG <= b <= MAG,
    ensures
        -MAG * MAG <= a * b <= MAG * MAG,
        MAG * MAG + MAG * MAG < 0x7fff_ffff_ffff_ffff_ffff_ffff_ffff_ffff,
{
    assert(-MAG * MAG <= a * b <= MAG * MAG) by (nonlinear_arith)
        requires
            -MAG <= a <= MAG,
            -MAG <= b <= MAG,
    ;
}

/// Euclidean division of `a` by the non-zero `b`: the quotient `q` and the
/// remainder `r` with `a == q * b + r` and `0 <= r < |b|`. The quotient is
/// wider than the operands, since `i64::MIN / -1` is `2^63`.
pub fn euclidean_div_mod(a: i64, b: i64) -> (res: (i128, i64))
    requires
        b != 0,
    ensures
        a == res.0 * b + res.1,
        0 <= res.1,
        res.1 < if b > 0 {
            b as int
        } else {
            -b
        },
{
    let ua: u128 = if a < 0 {
        (-(a as i128)) as u128
    } else {
        a as u128
    };
    let ub: u128 = if b < 0 {
        (-(b as i128)) as u128
    } else {
        b as u128
    };
    let uq = ua / ub;
    let ur = ua % ub;
    proof {
        assert(ua == uq * ub + ur && ur < ub) by (nonlinear_arith)
            requires
                uq == ua / ub,
                ur == ua % ub,
                ub > 0,
        ;
        assert(uq <= ua) by (nonlinear_arith)
            requires
                ua == uq * ub + ur,
                ub >= 1,
                ur >= 0,
        ;
    }
    let q: i128;
    let r: i128;
    if a >= 0 {
        r = ur as i128;
        if b > 0 {
            q = uq as i128;
        } else {
            q = -(uq as i128);
        }
    } else if ur == 0 {
        r = 0;
        if b > 0 {
            q = -(uq as i128);
        } else {
            q = uq as i128;
        }
    } else {
        r = (ub - ur) as i128;
        if b > 0 {
            q = -(uq as i128) - 1;
        } else {
            q = uq as i128 + 1;
        }
    }
    proof {
        assert(a == q * b + r) by (nonlinear_arith)
            requires
                ua == uq * ub + ur,
                a < 0 ==> ua == -a,
                a >= 0 ==> ua == a,
                b < 0 ==> ub == -b,
                b > 0 ==> ub == b,
                b != 0,
                a >= 0 ==> r == ur && (b > 0 ==> q == uq) && (b < 0 ==> q == -uq),
                a < 0 && ur == 0 ==> r == 0 && (b > 0 ==> q == -uq) && (b < 0 ==> q == uq),
                a < 0 && ur != 0 ==> r == ub - ur && (b > 0 ==> q == -uq - 1) && (b < 0 ==> q == uq + 1),
        ;
        assert(ua <= 0x8000_0000_0000_0000);
        assert(ub <= 0x8000_0000_0000_0000);
        assert(0 <= r <= 0x7fff_ffff_ffff_ffff);
    }
    (q, r as i64)
}

} // verus!
