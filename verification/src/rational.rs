//! Extended rationals (with infinities) and rationals with an infinitesimal part.
//!
//! An [`InfRational`] is a value `r + k·ε`, where `r` is a [`Rational`] (a
//! finite fraction or one of the two infinities) and `k` is a fraction
//! counting a positive infinitesimal `ε`. Strict bounds are encoded with the
//! infinitesimal: `x < 5` becomes `x <= 5 - ε`. Values are ordered
//! lexicographically: first by `r`, then, between equal finite `r`, by `k`.
//! Infinite values absorb their infinitesimal part.
use crate::fraction::{
    lemma_add_eqv, lemma_add_monotone, lemma_distr, lemma_eqv_refl, lemma_ops_wf, lemma_eqv_order, lemma_eqv_sym, lemma_eqv_trans, lemma_fraction_fits, lemma_le_lt_trans,
    lemma_le_trans, lemma_lt_le_trans, lemma_trichotomy, Fraction, Ratio,
};
use vstd::prelude::*;

verus! {

broadcast use lemma_fraction_fits;

/// A mathematical extended rational.
pub enum ExtRatio {
    NegInf,
    Fin(Ratio),
    PosInf,
}

impl ExtRatio {
    pub open spec fn wf(self) -> bool {
        self matches ExtRatio::Fin(x) ==> x.wf()
    }

    pub open spec fn lt(self, o: ExtRatio) -> bool {
        match (self, o) {
            (ExtRatio::NegInf, ExtRatio::NegInf) => false,
            (ExtRatio::NegInf, _) => true,
            (ExtRatio::Fin(x), ExtRatio::Fin(y)) => x.lt(y),
            (ExtRatio::Fin(_), ExtRatio::PosInf) => true,
            _ => false,
        }
    }

    pub open spec fn eqv(self, o: ExtRatio) -> bool {
        match (self, o) {
            (ExtRatio::NegInf, ExtRatio::NegInf) => true,
            (ExtRatio::PosInf, ExtRatio::PosInf) => true,
            (ExtRatio::Fin(x), ExtRatio::Fin(y)) => x.eqv(y),
            _ => false,
        }
    }

    /// Sum; an infinite left operand wins, then an infinite right operand.
    pub open spec fn add(self, o: ExtRatio) -> ExtRatio {
        match (self, o) {
            (ExtRatio::Fin(x), ExtRatio::Fin(y)) => ExtRatio::Fin(x.add(y)),
            (ExtRatio::Fin(_), _) => o,
            _ => self,
        }
    }

    pub open spec fn neg(self) -> ExtRatio {
        match self {
            ExtRatio::NegInf => ExtRatio::PosInf,
            ExtRatio::Fin(x) => ExtRatio::Fin(x.neg()),
            ExtRatio::PosInf => ExtRatio::NegInf,
        }
    }

    /// Product with a fraction; infinities keep or flip their sign, and
    /// become zero when multiplied by zero.
    pub open spec fn scale(self, c: Ratio) -> ExtRatio {
        match self {
            ExtRatio::Fin(x) => ExtRatio::Fin(x.mul(c)),
            _ => if c.num > 0 {
                self
            } else if c.num < 0 {
                self.neg()
            } else {
                ExtRatio::Fin(Ratio::zero())
            },
        }
    }

    /// Quotient by a non-zero fraction.
    pub open spec fn div(self, c: Ratio) -> ExtRatio {
        match self {
            ExtRatio::Fin(x) => ExtRatio::Fin(x.div(c)),
            _ => if c.num > 0 {
                self
            } else {
                self.neg()
            },
        }
    }

    pub open spec fn fits(self) -> bool {
        self matches ExtRatio::Fin(x) ==> x.fits()
    }
}

/// A rational number or one of the two infinities.
#[derive(Clone, Copy, Debug, PartialEq, Eq, Hash)]
pub enum Rational {
    Finite(Fraction),
    PositiveInf,
    NegativeInf,
}

impl View for Rational {
    type V = ExtRatio;

    open spec fn view(&self) -> ExtRatio {
        match self {
            Rational::Finite(f) => ExtRatio::Fin(f@),
            Rational::PositiveInf => ExtRatio::PosInf,
            Rational::NegativeInf => ExtRatio::NegInf,
        }
    }
}

impl Rational {
    /// The integer `v`.
    pub fn from_int(v: i32) -> (r: Rational)
        ensures
            r@ == ExtRatio::Fin(Ratio::of_int(v as int)),
    {
        Rational::Finite(Fraction::from_int(v))
    }

    pub fn is_finite(&self) -> (r: bool)
        ensures
            r == (self@ is Fin),
    {
        match self {
            Rational::Finite(_) => true,
            _ => false,
        }
    }

    /// `-self`.
    pub fn neg(&self) -> (r: Rational)
        ensures
            r@ == self@.neg(),
    {
        match self {
            Rational::Finite(f) => Rational::Finite(f.neg()),
            Rational::PositiveInf => Rational::NegativeInf,
            Rational::NegativeInf => Rational::PositiveInf,
        }
    }

    /// `self < other`.
    pub fn lt(&self, other: &Rational) -> (r: bool)
        ensures
            r == self@.lt(other@),
    {
        match (self, other) {
            (Rational::NegativeInf, Rational::NegativeInf) => false,
            (Rational::NegativeInf, _) => true,
            (Rational::Finite(x), Rational::Finite(y)) => x.lt(y),
            (Rational::Finite(_), Rational::PositiveInf) => true,
            _ => false,
        }
    }

    /// Whether both denote the same extended rational.
    pub fn eq_value(&self, other: &Rational) -> (r: bool)
        ensures
            r == self@.eqv(other@),
    {
        match (self, other) {
            (Rational::NegativeInf, Rational::NegativeInf) => true,
            (Rational::PositiveInf, Rational::PositiveInf) => true,
            (Rational::Finite(x), Rational::Finite(y)) => x.eq_value(y),
            _ => false,
        }
    }

    /// `self + other` (an infinite operand wins), or `None` on overflow.
    pub fn checked_add(&self, other: &Rational) -> (r: Option<Rational>)
        ensures
            r matches Some(x) ==> x@.eqv(self@.add(other@)),
            self@.add(other@).fits() ==> r is Some,
    {
        match (self, other) {
            (Rational::Finite(x), Rational::Finite(y)) => match x.checked_add(y) {
                Some(s) => Some(Rational::Finite(s)),
                None => None,
            },
            (Rational::Finite(_), _) => Some(*other),
            _ => Some(*self),
        }
    }

    /// `self * c`, or `None` on overflow.
    pub fn checked_scale(&self, c: &Fraction) -> (r: Option<Rational>)
        ensures
            r matches Some(x) ==> x@.eqv(self@.scale(c@)),
            self@.scale(c@).fits() ==> r is Some,
    {
        match self {
            Rational::Finite(x) => match x.checked_mul(c) {
                Some(s) => Some(Rational::Finite(s)),
                None => None,
            },
            _ => if c.is_positive() {
                Some(*self)
            } else if c.is_negative() {
                Some(self.neg())
            } else {
                Some(Rational::Finite(Fraction::zero()))
            },
        }
    }

    /// `self / c` for a non-zero `c`, or `None` on overflow.
    pub fn checked_div(&self, c: &Fraction) -> (r: Option<Rational>)
        requires
            c@.num != 0,
        ensures
            r matches Some(x) ==> x@.eqv(self@.div(c@)),
            self@.div(c@).fits() ==> r is Some,
    {
        match self {
            Rational::Finite(x) => match x.checked_div(c) {
                Some(s) => Some(Rational::Finite(s)),
                None => None,
            },
            _ => if c.is_positive() {
                Some(*self)
            } else {
                Some(self.neg())
            },
        }
    }
}

/// The mathematical value `real + eps·ε`.
pub struct IRatio {
    pub real: ExtRatio,
    pub eps: Ratio,
}

impl IRatio {
    pub open spec fn wf(self) -> bool {
        self.real.wf() && self.eps.wf()
    }

    pub open spec fn lt(self, o: IRatio) -> bool {
        ||| self.real.lt(o.real)
        ||| (self.real is Fin && o.real is Fin && self.real.eqv(o.real) && self.eps.lt(o.eps))
    }

    pub open spec fn eqv(self, o: IRatio) -> bool {
        self.real.eqv(o.real) && (self.real is Fin ==> self.eps.eqv(o.eps))
    }

    pub open spec fn le(self, o: IRatio) -> bool {
        self.lt(o) || self.eqv(o)
    }

    pub open spec fn add(self, o: IRatio) -> IRatio {
        IRatio { real: self.real.add(o.real), eps: self.eps.add(o.eps) }
    }

    pub open spec fn neg(self) -> IRatio {
        IRatio { real: self.real.neg(), eps: self.eps.neg() }
    }

    pub open spec fn sub(self, o: IRatio) -> IRatio {
        self.add(o.neg())
    }

    pub open spec fn scale(self, c: Ratio) -> IRatio {
        IRatio { real: self.real.scale(c), eps: self.eps.mul(c) }
    }

    pub open spec fn div(self, c: Ratio) -> IRatio {
        IRatio { real: self.real.div(c), eps: self.eps.div(c) }
    }

    pub open spec fn fits(self) -> bool {
        self.real.fits() && self.eps.fits()
    }

    pub open spec fn of_int(v: int) -> IRatio {
        IRatio { real: ExtRatio::Fin(Ratio::of_int(v)), eps: Ratio::zero() }
    }

    pub open spec fn pos_inf() -> IRatio {
        IRatio { real: ExtRatio::PosInf, eps: Ratio::zero() }
    }

    pub open spec fn neg_inf() -> IRatio {
        IRatio { real: ExtRatio::NegInf, eps: Ratio::zero() }
    }
}

/// A value `r + k·ε` with an infinitesimal part.
#[derive(Clone, Copy, Debug, PartialEq, Eq, Hash)]
pub struct InfRational {
    rational: Rational,
    infinitesimal: Fraction,
}

impl View for InfRational {
    type V = IRatio;

    closed spec fn view(&self) -> IRatio {
        IRatio { real: self.rational@, eps: self.infinitesimal@ }
    }
}

/// Every value's view is well-formed and fits in 64 bits.
pub broadcast proof fn lemma_inf_rational_wf(x: InfRational)
    ensures
        #[trigger] x@.wf(),
        x@.fits(),
{
}

impl InfRational {
    /// The value `rational + infinitesimal·ε`.
    pub fn new(rational: Rational, infinitesimal: Fraction) -> (r: InfRational)
        ensures
            r@ == (IRatio { real: rational@, eps: infinitesimal@ }),
    {
        InfRational { rational, infinitesimal }
    }

    /// The integer `v`.
    pub fn from_int(v: i32) -> (r: InfRational)
        ensures
            r@ == IRatio::of_int(v as int),
    {
        InfRational { rational: Rational::from_int(v), infinitesimal: Fraction::zero() }
    }

    /// `rational` with no infinitesimal part.
    pub fn from_rational(rational: Rational) -> (r: InfRational)
        ensures
            r@ == (IRatio { real: rational@, eps: Ratio::zero() }),
    {
        InfRational { rational, infinitesimal: Fraction::zero() }
    }

    /// `rational + eps·ε` for a whole number of infinitesimals.
    pub fn with_eps(rational: Rational, eps: i32) -> (r: InfRational)
        ensures
            r@ == (IRatio { real: rational@, eps: Ratio::of_int(eps as int) }),
    {
        InfRational { rational, infinitesimal: Fraction::from_int(eps) }
    }

    /// Zero.
    pub fn zero() -> (r: InfRational)
        ensures
            r@ == IRatio::of_int(0),
            r == InfRational::zero_spec(),
    {
        InfRational { rational: Rational::Finite(Fraction::zero()), infinitesimal: Fraction::zero() }
    }

    /// The zero value as built by [`InfRational::zero`].
    pub closed spec fn zero_spec() -> InfRational {
        InfRational {
            rational: Rational::Finite(Fraction::zero_spec()),
            infinitesimal: Fraction::zero_spec(),
        }
    }

    pub closed spec fn pos_inf_spec() -> InfRational {
        InfRational { rational: Rational::PositiveInf, infinitesimal: Fraction::zero_spec() }
    }

    pub closed spec fn neg_inf_spec() -> InfRational {
        InfRational { rational: Rational::NegativeInf, infinitesimal: Fraction::zero_spec() }
    }

    /// Positive infinity.
    pub fn positive_inf() -> (r: InfRational)
        ensures
            r@ == IRatio::pos_inf(),
            r == InfRational::pos_inf_spec(),
    {
        InfRational { rational: Rational::PositiveInf, infinitesimal: Fraction::zero() }
    }

    /// Negative infinity.
    pub fn negative_inf() -> (r: InfRational)
        ensures
            r@ == IRatio::neg_inf(),
            r == InfRational::neg_inf_spec(),
    {
        InfRational { rational: Rational::NegativeInf, infinitesimal: Fraction::zero() }
    }

    /// The rational (standard) part.
    pub fn rational_part(&self) -> (r: &Rational)
        ensures
            r@ == self@.real,
    {
        &self.rational
    }

    /// The coefficient of the infinitesimal.
    pub fn infinitesimal_part(&self) -> (r: &Fraction)
        ensures
            r@ == self@.eps,
    {
        &self.infinitesimal
    }

    pub fn is_finite(&self) -> (r: bool)
        ensures
            r == (self@.real is Fin),
    {
        self.rational.is_finite()
    }

    /// `-self`.
    pub fn neg(&self) -> (r: InfRational)
        ensures
            r@ == self@.neg(),
    {
        InfRational { rational: self.rational.neg(), infinitesimal: self.infinitesimal.neg() }
    }

    /// `self + other`, or `None` on overflow.
    pub fn checked_add(&self, other: &InfRational) -> (r: Option<InfRational>)
        ensures
            r matches Some(x) ==> x@.eqv(self@.add(other@)),
            self@.add(other@).fits() ==> r is Some,
    {
        let rr = self.rational.checked_add(&other.rational);
        let ee = self.infinitesimal.checked_add(&other.infinitesimal);
        match (rr, ee) {
            (Some(r), Some(e)) => Some(InfRational { rational: r, infinitesimal: e }),
            _ => None,
        }
    }

    /// `self - other`, or `None` on overflow.
    pub fn checked_sub(&self, other: &InfRational) -> (r: Option<InfRational>)
        ensures
            r matches Some(x) ==> x@.eqv(self@.sub(other@)),
            self@.sub(other@).fits() ==> r is Some,
    {
        let m = other.neg();
        self.checked_add(&m)
    }

    /// `self * c`, or `None` on overflow.
    pub fn checked_scale(&self, c: &Fraction) -> (r: Option<InfRational>)
        ensures
            r matches Some(x) ==> x@.eqv(self@.scale(c@)),
            self@.scale(c@).fits() ==> r is Some,
    {
        let rr = self.rational.checked_scale(c);
        let ee = self.infinitesimal.checked_mul(c);
        match (rr, ee) {
            (Some(r), Some(e)) => Some(InfRational { rational: r, infinitesimal: e }),
            _ => None,
        }
    }

    /// `self / c` for a non-zero `c`, or `None` on overflow.
    pub fn checked_div(&self, c: &Fraction) -> (r: Option<InfRational>)
        requires
            c@.num != 0,
        ensures
            r matches Some(x) ==> x@.eqv(self@.div(c@)),
            self@.div(c@).fits() ==> r is Some,
    {
        let rr = self.rational.checked_div(c);
        let ee = self.infinitesimal.checked_div(c);
        match (rr, ee) {
            (Some(r), Some(e)) => Some(InfRational { rational: r, infinitesimal: e }),
            _ => None,
        }
    }

    /// `self < other`.
    pub fn lt(&self, other: &InfRational) -> (r: bool)
        ensures
            r == self@.lt(other@),
    {
        if self.rational.lt(&other.rational) {
            true
        } else if self.rational.is_finite() && other.rational.is_finite()
            && self.rational.eq_value(&other.rational) {
            self.infinitesimal.lt(&other.infinitesimal)
        } else {
            false
        }
    }

    /// Whether both denote the same value.
    pub fn eq_value(&self, other: &InfRational) -> (r: bool)
        ensures
            r == self@.eqv(other@),
    {
        if !self.rational.eq_value(&other.rational) {
            false
        } else if self.rational.is_finite() {
            self.infinitesimal.eq_value(&other.infinitesimal)
        } else {
            true
        }
    }

    /// `self <= other`.
    pub fn le(&self, other: &InfRational) -> (r: bool)
        ensures
            r == self@.le(other@),
    {
        self.lt(other) || self.eq_value(other)
    }
}

/// The order on values is a strict total order compatible with `eqv`.
pub proof fn lemma_iratio_trichotomy(a: IRatio, b: IRatio)
    requires
        a.wf(),
        b.wf(),
    ensures
        a.lt(b) || a.eqv(b) || b.lt(a),
        !(a.lt(b) && b.le(a)),
{
    match (a.real, b.real) {
        (ExtRatio::Fin(x), ExtRatio::Fin(y)) => {
            lemma_trichotomy(x, y);
            lemma_trichotomy(a.eps, b.eps);
            lemma_trichotomy(y, x);
            lemma_trichotomy(b.eps, a.eps);
            if x.eqv(y) {
                lemma_eqv_sym(x, y);
            }
        },
        _ => {},
    }
}

/// `le` is transitive, and `lt` absorbs `le` on either side.
pub proof fn lemma_iratio_le_trans(a: IRatio, b: IRatio, c: IRatio)
    requires
        a.wf(),
        b.wf(),
        c.wf(),
    ensures
        a.le(b) && b.le(c) ==> a.le(c),
        a.lt(b) && b.le(c) ==> a.lt(c),
        a.le(b) && b.lt(c) ==> a.lt(c),
{
    match (a.real, b.real, c.real) {
        (ExtRatio::Fin(x), ExtRatio::Fin(y), ExtRatio::Fin(z)) => {
            lemma_trichotomy(x, y);
            lemma_trichotomy(y, z);
            lemma_trichotomy(x, z);
            lemma_trichotomy(a.eps, b.eps);
            lemma_trichotomy(b.eps, c.eps);
            lemma_trichotomy(a.eps, c.eps);
            if x.le(y) && y.le(z) {
                lemma_le_trans(x, y, z);
            }
            if x.lt(y) && y.le(z) {
                lemma_lt_le_trans(x, y, z);
            }
            if x.le(y) && y.lt(z) {
                lemma_le_lt_trans(x, y, z);
            }
            if x.eqv(y) && y.eqv(z) {
                lemma_eqv_trans(x, y, z);
            }
            if a.eps.le(b.eps) && b.eps.le(c.eps) {
                lemma_le_trans(a.eps, b.eps, c.eps);
            }
            if a.eps.lt(b.eps) && b.eps.le(c.eps) {
                lemma_lt_le_trans(a.eps, b.eps, c.eps);
            }
            if a.eps.le(b.eps) && b.eps.lt(c.eps) {
                lemma_le_lt_trans(a.eps, b.eps, c.eps);
            }
            if a.eps.eqv(b.eps) && b.eps.eqv(c.eps) {
                lemma_eqv_trans(a.eps, b.eps, c.eps);
            }
            if x.eqv(y) && y.lt(z) {
                lemma_eqv_order(x, y, z);
            }
            if x.lt(y) && y.eqv(z) {
                lemma_eqv_sym(y, z);
                lemma_eqv_order(z, y, x);
            }
        },
        _ => {},
    }
}

/// `eqv` is an equivalence relation on well-formed values.
pub proof fn lemma_iratio_eqv(a: IRatio, b: IRatio, c: IRatio)
    requires
        a.wf(),
        b.wf(),
        c.wf(),
    ensures
        a.eqv(a),
        a.eqv(b) ==> b.eqv(a),
        a.eqv(b) && b.eqv(c) ==> a.eqv(c),
{
    lemma_eqv_refl(a.eps);
    if let ExtRatio::Fin(x) = a.real {
        lemma_eqv_refl(x);
    }
    if a.eqv(b) {
        if let (ExtRatio::Fin(x), ExtRatio::Fin(y)) = (a.real, b.real) {
            lemma_eqv_sym(x, y);
            lemma_eqv_sym(a.eps, b.eps);
        }
        if b.eqv(c) {
            if let (ExtRatio::Fin(x), ExtRatio::Fin(y), ExtRatio::Fin(z)) = (a.real, b.real, c.real) {
                lemma_eqv_trans(x, y, z);
                lemma_eqv_trans(a.eps, b.eps, c.eps);
            }
        }
    }
}

/// Equal values compare the same way.
pub proof fn lemma_iratio_eqv_order(a: IRatio, a2: IRatio, b: IRatio)
    requires
        a.wf(),
        a2.wf(),
        b.wf(),
        a.eqv(a2),
    ensures
        a.le(b) == a2.le(b),
        a.lt(b) == a2.lt(b),
        b.le(a) == b.le(a2),
        b.lt(a) == b.lt(a2),
{
    lemma_iratio_eqv(a, a2, b);
    lemma_iratio_eqv(a2, a, b);
    lemma_iratio_eqv(b, a, a2);
    lemma_iratio_eqv(b, a2, a);
    if let (ExtRatio::Fin(x), ExtRatio::Fin(x2)) = (a.real, a2.real) {
        lemma_eqv_order(x, x2, x);
        match b.real {
            ExtRatio::Fin(y) => {
                lemma_eqv_order(x, x2, y);
                lemma_eqv_order(a.eps, a2.eps, b.eps);
                lemma_eqv_sym(x, y);
                lemma_eqv_sym(x2, y);
                if x.eqv(y) {
                    lemma_eqv_sym(x, x2);
                    lemma_eqv_trans(x2, x, y);
                }
                if x2.eqv(y) {
                    lemma_eqv_trans(x, x2, y);
                }
                if a.eps.eqv(b.eps) {
                    lemma_eqv_sym(a.eps, a2.eps);
                    lemma_eqv_trans(a2.eps, a.eps, b.eps);
                    lemma_eqv_sym(a2.eps, b.eps);
                    lemma_eqv_sym(a.eps, b.eps);
                }
                if a2.eps.eqv(b.eps) {
                    lemma_eqv_trans(a.eps, a2.eps, b.eps);
                    lemma_eqv_sym(a2.eps, b.eps);
                    lemma_eqv_sym(a.eps, b.eps);
                }
            },
            _ => {},
        }
    }
}

/// Sums respect `eqv` in both arguments.
pub proof fn lemma_iratio_add_eqv(a: IRatio, a2: IRatio, b: IRatio, b2: IRatio)
    requires
        a.eqv(a2),
        b.eqv(b2),
    ensures
        a.add(b).eqv(a2.add(b2)),
{
    if let (ExtRatio::Fin(x), ExtRatio::Fin(x2), ExtRatio::Fin(y), ExtRatio::Fin(y2)) = (
        a.real,
        a2.real,
        b.real,
        b2.real,
    ) {
        lemma_add_eqv(x, x2, y, y2);
        lemma_add_eqv(a.eps, a2.eps, b.eps, b2.eps);
    }
}

/// Adding a finite value on both sides preserves `le` and `lt`.
pub proof fn lemma_iratio_add_monotone(a: IRatio, b: IRatio, c: IRatio)
    requires
        a.wf(),
        b.wf(),
        c.wf(),
        c.real is Fin,
    ensures
        a.le(b) ==> a.add(c).le(b.add(c)),
        a.lt(b) ==> a.add(c).lt(b.add(c)),
        a.add(c).wf(),
{
    lemma_ops_wf(a.eps, c.eps);
    lemma_add_monotone(a.eps, b.eps, c.eps);
    let z = c.real->Fin_0;
    match (a.real, b.real) {
        (ExtRatio::Fin(x), ExtRatio::Fin(y)) => {
            lemma_ops_wf(x, z);
            lemma_ops_wf(y, z);
            lemma_add_monotone(x, y, z);
            lemma_eqv_refl(z);
            lemma_eqv_refl(a.eps);
            lemma_eqv_refl(b.eps);
            lemma_eqv_refl(c.eps);
            if x.eqv(y) {
                lemma_add_eqv(x, y, z, z);
                if a.eps.eqv(b.eps) {
                    lemma_add_eqv(a.eps, b.eps, c.eps, c.eps);
                }
            }
        },
        (ExtRatio::Fin(x), _) => {
            lemma_ops_wf(x, z);
        },
        _ => {},
    }
}

/// Negating twice gives back the value.
pub proof fn lemma_iratio_neg_neg(a: IRatio)
    ensures
        a.neg().neg() == a,
{
    assert(a.eps.neg().neg() =~= a.eps);
    match a.real {
        ExtRatio::Fin(x) => {
            assert(x.neg().neg() =~= x);
        },
        _ => {},
    }
}

/// Adding zero gives back the value.
pub proof fn lemma_add_zero(a: IRatio)
    ensures
        a.add(IRatio::of_int(0)) == a,
{
    assert(a.eps.add(Ratio::zero()) =~= a.eps);
    if let ExtRatio::Fin(x) = a.real {
        assert(x.add(Ratio::zero()) =~= x);
    }
}

/// Addition of finite values is associative up to `eqv`.
pub proof fn lemma_add_assoc(a: IRatio, b: IRatio, c: IRatio)
    requires
        a.real is Fin,
        b.real is Fin,
        c.real is Fin,
    ensures
        a.add(b).add(c).eqv(a.add(b.add(c))),
{
    lemma_ratio_add_assoc(a.eps, b.eps, c.eps);
    lemma_ratio_add_assoc(a.real->Fin_0, b.real->Fin_0, c.real->Fin_0);
}

/// Addition of fractions is associative (the two sums are even written alike).
pub proof fn lemma_ratio_add_assoc(a: Ratio, b: Ratio, c: Ratio)
    ensures
        a.add(b).add(c) == a.add(b.add(c)),
        a.add(b).add(c).eqv(a.add(b.add(c))),
{
    let (x, y, u, v, p, q) = (a.num, a.den, b.num, b.den, c.num, c.den);
    lemma_distr(x * v, u * y, q);
    lemma_distr(u * q, p * v, y);
    assert((x * v) * q == x * (v * q)) by (nonlinear_arith);
    assert((u * y) * q == (u * q) * y) by (nonlinear_arith);
    assert(p * (y * v) == (p * v) * y) by (nonlinear_arith);
    assert((y * v) * q == y * (v * q)) by (nonlinear_arith);
    lemma_eqv_refl(a.add(b).add(c));
}

/// `a <= a + w` for a finite `a` means `0 <= w`.
pub proof fn lemma_cancel_left(a: IRatio, w: IRatio)
    requires
        a.wf(),
        w.wf(),
        a.real is Fin,
        w.real is Fin,
        a.le(a.add(w)),
    ensures
        IRatio::of_int(0).le(w),
{
    let x = a.real->Fin_0;
    let z = w.real->Fin_0;
    lemma_cancel_ratio(x, z);
    lemma_cancel_ratio(a.eps, w.eps);
}

/// Adding `w` lowers `a` only when `w` is negative.
pub proof fn lemma_add_lowers(a: IRatio, w: IRatio)
    requires
        a.wf(),
        w.wf(),
        a.real is Fin,
        w.real is Fin,
        a.add(w).lt(a),
    ensures
        w.lt(IRatio::of_int(0)),
{
    let x = a.real->Fin_0;
    let z = w.real->Fin_0;
    lemma_cancel_ratio(x, z);
    lemma_cancel_ratio(a.eps, w.eps);
    let s = x.add(z);
    assert(s.den == x.den * z.den);
    if s.lt(x) {
        assert(!x.le(s));
        assert(z.num < 0);
    } else {
        assert(s.eqv(x));
        assert(x.eqv(s));
        assert(z.num == 0);
        assert(a.eps.add(w.eps).lt(a.eps));
        assert(!a.eps.le(a.eps.add(w.eps)));
        assert(w.eps.num < 0);
    }
}

/// For fractions, `x <= x + z` iff `0 <= z`, and likewise for `<` and `==`.
proof fn lemma_cancel_ratio(x: Ratio, z: Ratio)
    requires
        x.wf(),
        z.wf(),
    ensures
        x.le(x.add(z)) <==> Ratio::zero().le(z),
        x.lt(x.add(z)) <==> Ratio::zero().lt(z),
        x.eqv(x.add(z)) <==> Ratio::zero().eqv(z),
{
    let (n, d, m, e) = (x.num, x.den, z.num, z.den);
    // x.num * (d * e) vs (n * e + m * d) * d  <=>  0 vs m * d * d
    assert(n * (d * e) + m * (d * d) == (n * e + m * d) * d) by (nonlinear_arith);
    assert(d * d > 0) by (nonlinear_arith)
        requires
            d > 0,
    ;
    assert((m * (d * d) >= 0) <==> (m >= 0)) by (nonlinear_arith)
        requires
            d * d > 0,
    ;
    assert((m * (d * d) > 0) <==> (m > 0)) by (nonlinear_arith)
        requires
            d * d > 0,
    ;
    assert((m * (d * d) == 0) <==> (m == 0)) by (nonlinear_arith)
        requires
            d * d > 0,
    ;
}

/// Scaling respects `eqv`.
pub proof fn lemma_iratio_scale_eqv(a: IRatio, a2: IRatio, c: Ratio)
    requires
        a.eqv(a2),
        a.real is Fin,
    ensures
        a.scale(c).eqv(a2.scale(c)),
{
    let x = a.real->Fin_0;
    let x2 = a2.real->Fin_0;
    lemma_eqv_refl(c);
    crate::dot::lemma_mul_eqv(x, x2, c, c);
    crate::dot::lemma_mul_eqv(a.eps, a2.eps, c, c);
}

/// Sums, differences and multiples of well-formed finite values are
/// well-formed and finite.
pub proof fn lemma_iratio_ops_wf(a: IRatio, b: IRatio, c: Ratio)
    requires
        a.wf(),
        b.wf(),
        c.wf(),
        a.real is Fin,
        b.real is Fin,
    ensures
        a.add(b).wf(),
        a.add(b).real is Fin,
        a.sub(b).wf(),
        a.sub(b).real is Fin,
        a.scale(c).wf(),
        a.scale(c).real is Fin,
        a.neg().wf(),
{
    let x = a.real->Fin_0;
    let y = b.real->Fin_0;
    lemma_ops_wf(x, y);
    lemma_ops_wf(x, c);
    lemma_ops_wf(a.eps, b.eps);
    lemma_ops_wf(a.eps, c);
    lemma_ops_wf(x, y.neg());
    lemma_ops_wf(a.eps, b.eps.neg());
    lemma_ops_wf(y, x);
}

/// Dividing respects `eqv` in the dividend.
pub proof fn lemma_iratio_div_eqv(a: IRatio, a2: IRatio, c: Ratio)
    requires
        a.eqv(a2),
        a.real is Fin,
        c.num != 0,
    ensures
        a.div(c).eqv(a2.div(c)),
{
    let x = a.real->Fin_0;
    let x2 = a2.real->Fin_0;
    lemma_ratio_div_eqv(x, x2, c);
    lemma_ratio_div_eqv(a.eps, a2.eps, c);
}

pub proof fn lemma_ratio_div_eqv(x: Ratio, x2: Ratio, c: Ratio)
    requires
        x.eqv(x2),
        c.num != 0,
    ensures
        x.div(c).eqv(x2.div(c)),
{
    if c.num > 0 {
        assert((x.num * c.den) * (x2.den * c.num) == (x2.num * c.den) * (x.den * c.num)) by (nonlinear_arith)
            requires
                x.num * x2.den == x2.num * x.den,
        ;
    } else {
        assert((-(x.num * c.den)) * (-(x2.den * c.num)) == (-(x2.num * c.den)) * (-(x.den * c.num))) by (nonlinear_arith)
            requires
                x.num * x2.den == x2.num * x.den,
        ;
    }
}

/// A quotient of a well-formed finite value by a non-zero fraction is
/// well-formed and finite.
pub proof fn lemma_iratio_div_wf(a: IRatio, c: Ratio)
    requires
        a.wf(),
        a.real is Fin,
        c.wf(),
        c.num != 0,
    ensures
        a.div(c).wf(),
        a.div(c).real is Fin,
{
    lemma_ops_wf(a.real->Fin_0, c);
    lemma_ops_wf(a.eps, c);
}

/// `(x / c)·c` has the value of `x`.
pub proof fn lemma_ratio_div_mul(x: Ratio, c: Ratio)
    requires
        x.wf(),
        c.wf(),
        c.num != 0,
    ensures
        x.div(c).mul(c).eqv(x),
{
    if c.num > 0 {
        assert(x.div(c).mul(c).eqv(x)) by (nonlinear_arith)
            requires
                x.div(c).num == x.num * c.den,
                x.div(c).den == x.den * c.num,
                x.div(c).mul(c).num == x.div(c).num * c.num,
                x.div(c).mul(c).den == x.div(c).den * c.den,
        ;
    } else {
        assert(x.div(c).mul(c).eqv(x)) by (nonlinear_arith)
            requires
                x.div(c).num == -(x.num * c.den),
                x.div(c).den == -(x.den * c.num),
                x.div(c).mul(c).num == x.div(c).num * c.num,
                x.div(c).mul(c).den == x.div(c).den * c.den,
        ;
    }
}

/// `(a + d) - a` has the value of `d`, and `a + (b - a)` that of `b`.
pub proof fn lemma_ratio_add_sub(a: Ratio, b: Ratio)
    requires
        a.wf(),
        b.wf(),
    ensures
        a.add(b).sub(a).eqv(b),
        a.add(b.sub(a)).eqv(b),
{
    let t = a.add(b).sub(a);
    assert(t.num == (a.num * b.den + b.num * a.den) * a.den + (-a.num) * (a.den * b.den));
    assert(t.den == (a.den * b.den) * a.den);
    assert(t.eqv(b)) by (nonlinear_arith)
        requires
            t.num == (a.num * b.den + b.num * a.den) * a.den + (-a.num) * (a.den * b.den),
            t.den == (a.den * b.den) * a.den,
    ;
    let u = a.add(b.sub(a));
    assert(u.num == a.num * (b.den * a.den) + (b.num * a.den + (-a.num) * b.den) * a.den);
    assert(u.den == a.den * (b.den * a.den));
    assert(u.eqv(b)) by (nonlinear_arith)
        requires
            u.num == a.num * (b.den * a.den) + (b.num * a.den + (-a.num) * b.den) * a.den,
            u.den == a.den * (b.den * a.den),
    ;
}

/// The same facts for finite values with infinitesimal parts.
pub proof fn lemma_iratio_add_sub(a: IRatio, b: IRatio)
    requires
        a.wf(),
        b.wf(),
        a.real is Fin,
        b.real is Fin,
    ensures
        a.add(b).sub(a).eqv(b),
        a.add(b.sub(a)).eqv(b),
{
    lemma_ratio_add_sub(a.real->Fin_0, b.real->Fin_0);
    lemma_ratio_add_sub(a.eps, b.eps);
}

/// `(x / c)·c` has the value of `x`, for a finite `x`.
pub proof fn lemma_iratio_div_scale(x: IRatio, c: Ratio)
    requires
        x.wf(),
        x.real is Fin,
        c.wf(),
        c.num != 0,
    ensures
        x.div(c).scale(c).eqv(x),
{
    lemma_ratio_div_mul(x.real->Fin_0, c);
    lemma_ratio_div_mul(x.eps, c);
}

} // verus!
