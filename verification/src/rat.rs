//! Exact rational numbers with a bounded representation.
//!
//! Brain evaluation averages and scales signal weights; those operations are
//! closed over the rationals, so weights are kept as exact fractions rather
//! than approximate machine numbers. The representation is bounded: an
//! operation whose exact result has a numerator or denominator beyond `i64`
//! range yields `None`, which the evaluator treats as "no defined weight".

use vstd::prelude::*;

verus! {

/// An exact rational number `num / den`.
///
/// Well-formed values keep `den >= 1` (so the sign lives in the numerator)
/// and `num > i64::MIN` (so negation never overflows). Two well-formed
/// values may denote the same rational with different representations;
/// `same_value` compares them as numbers, while `==` compares the
/// representation.
#[derive(Clone, Copy, PartialEq, Eq, Structural, Debug)]
pub struct Rat {
    pub num: i64,
    pub den: i64,
}

/// Whether an exact numerator/denominator pair fits the bounded
/// representation of `Rat`.
pub open spec fn rat_in_range(num: int, den: int) -> bool {
    &&& -0x7fff_ffff_ffff_ffff <= num <= 0x7fff_ffff_ffff_ffff
    &&& 1 <= den <= 0x7fff_ffff_ffff_ffff
}

/// The bounded rational holding an exact pair, or `None` when it does not fit.
pub open spec fn spec_fit(num: int, den: int) -> Option<Rat> {
    if rat_in_range(num, den) {
        Some(Rat { num: num as i64, den: den as i64 })
    } else {
        None
    }
}

/// Exact addition of two well-formed rationals, `None` when out of range.
pub open spec fn spec_add(a: Rat, b: Rat) -> Option<Rat> {
    spec_fit(a.num * b.den + b.num * a.den, a.den * b.den)
}

/// Exact multiplication of two well-formed rationals, `None` when out of range.
pub open spec fn spec_mul(a: Rat, b: Rat) -> Option<Rat> {
    spec_fit(a.num * b.num, a.den * b.den)
}

/// Exact division of a well-formed rational by a positive integer,
/// `None` when out of range.
pub open spec fn spec_div_int(a: Rat, n: int) -> Option<Rat> {
    spec_fit(a.num as int, a.den * n)
}

/// Products of two values within `+-(2^63 - 1)` stay within `+-(2^63 - 1)^2`.
proof fn lemma_i64_mul_bound(a: int, b: int)
    by (nonlinear_arith)
    requires
        -0x7fff_ffff_ffff_ffff <= a <= 0x7fff_ffff_ffff_ffff,
        -0x7fff_ffff_ffff_ffff <= b <= 0x7fff_ffff_ffff_ffff,
    ensures
        -0x3fff_ffff_ffff_ffff_0000_0000_0000_0001 <= a * b
            <= 0x3fff_ffff_ffff_ffff_0000_0000_0000_0001,
{
}

/// A product of two positive factors is positive.
proof fn lemma_pos_mul(a: int, b: int)
    by (nonlinear_arith)
    requires
        a >= 1,
        b >= 1,
    ensures
        a * b >= 1,
{
}

impl Rat {
    /// Representation invariant.
    pub open spec fn wf(self) -> bool {
        &&& self.den >= 1
        &&& self.num > i64::MIN
    }

    /// The rational `num / den`.
    pub fn new(num: i64, den: i64) -> (r: Rat)
        requires
            den >= 1,
            num > i64::MIN,
        ensures
            r == (Rat { num, den }),
            r.wf(),
    {
        Rat { num, den }
    }

    pub open spec fn spec_zero() -> Rat {
        Rat { num: 0, den: 1 }
    }

    /// The rational zero.
    pub fn zero() -> (r: Rat)
        ensures
            r == Rat::spec_zero(),
            r.wf(),
    {
        Rat { num: 0, den: 1 }
    }

    pub open spec fn spec_one() -> Rat {
        Rat { num: 1, den: 1 }
    }

    /// The rational one.
    pub fn one() -> (r: Rat)
        ensures
            r == Rat::spec_one(),
            r.wf(),
    {
        Rat { num: 1, den: 1 }
    }

    /// Whether `self` and `other` denote the same rational number.
    pub open spec fn same_value(self, other: Rat) -> bool {
        self.num * other.den == other.num * self.den
    }

    /// `self < other` as rational numbers (meaningful for well-formed values,
    /// whose denominators are positive).
    pub open spec fn spec_lt(self, other: Rat) -> bool {
        self.num * other.den < other.num * self.den
    }

    pub open spec fn spec_neg(self) -> Rat {
        Rat { num: (-self.num) as i64, den: self.den }
    }

    /// Exact negation; total on well-formed values.
    pub fn neg(&self) -> (r: Rat)
        requires
            self.wf(),
        ensures
            r == self.spec_neg(),
            r.wf(),
            r.num == -self.num,
            r.den == self.den,
    {
        Rat { num: -self.num, den: self.den }
    }

    /// Exact comparison by cross-multiplication.
    pub fn lt(&self, other: &Rat) -> (r: bool)
        requires
            self.wf(),
            other.wf(),
        ensures
            r == self.spec_lt(*other),
    {
        proof {
            lemma_i64_mul_bound(self.num as int, other.den as int);
            lemma_i64_mul_bound(other.num as int, self.den as int);
        }
        let lhs: i128 = (self.num as i128) * (other.den as i128);
        let rhs: i128 = (other.num as i128) * (self.den as i128);
        lhs < rhs
    }

    /// Squeezes an exact pair into the bounded representation.
    fn fit(num: i128, den: i128) -> (r: Option<Rat>)
        requires
            den >= 1,
        ensures
            r == spec_fit(num as int, den as int),
            r is Some ==> r->Some_0.wf(),
    {
        if -0x7fff_ffff_ffff_ffffi128 <= num && num <= 0x7fff_ffff_ffff_ffffi128
            && den <= 0x7fff_ffff_ffff_ffffi128 {
            Some(Rat { num: num as i64, den: den as i64 })
        } else {
            None
        }
    }

    /// Exact addition; `None` when the result leaves the representation.
    pub fn checked_add(&self, other: &Rat) -> (r: Option<Rat>)
        requires
            self.wf(),
            other.wf(),
        ensures
            r == spec_add(*self, *other),
            r is Some ==> r->Some_0.wf(),
    {
        proof {
            lemma_i64_mul_bound(self.num as int, other.den as int);
            lemma_i64_mul_bound(other.num as int, self.den as int);
            lemma_i64_mul_bound(self.den as int, other.den as int);
            lemma_pos_mul(self.den as int, other.den as int);
        }
        let num: i128 = (self.num as i128) * (other.den as i128)
            + (other.num as i128) * (self.den as i128);
        let den: i128 = (self.den as i128) * (other.den as i128);
        Rat::fit(num, den)
    }

    /// Exact multiplication; `None` when the result leaves the representation.
    pub fn checked_mul(&self, other: &Rat) -> (r: Option<Rat>)
        requires
            self.wf(),
            other.wf(),
        ensures
            r == spec_mul(*self, *other),
            r is Some ==> r->Some_0.wf(),
    {
        proof {
            lemma_i64_mul_bound(self.num as int, other.num as int);
            lemma_i64_mul_bound(self.den as int, other.den as int);
            lemma_pos_mul(self.den as int, other.den as int);
        }
        let num: i128 = (self.num as i128) * (other.num as i128);
        let den: i128 = (self.den as i128) * (other.den as i128);
        Rat::fit(num, den)
    }

    /// Exact division by a positive integer; `None` when the result leaves
    /// the representation.
    pub fn checked_div_int(&self, n: usize) -> (r: Option<Rat>)
        requires
            self.wf(),
            n >= 1,
        ensures
            r == spec_div_int(*self, n as int),
            r is Some ==> r->Some_0.wf(),
    {
        if (n as u128) > 0x7fff_ffff_ffff_ffffu128 {
            proof {
                lemma_pos_mul(self.den as int, n as int);
            }
            assert(self.den * n > 0x7fff_ffff_ffff_ffff) by (nonlinear_arith)
                requires
                    self.den >= 1,
                    n > 0x7fff_ffff_ffff_ffff,
            ;
            None
        } else {
            proof {
                lemma_i64_mul_bound(self.den as int, n as int);
                lemma_pos_mul(self.den as int, n as int);
            }
            let den: i128 = (self.den as i128) * (n as i128);
            Rat::fit(self.num as i128, den)
        }
    }
}

} // verus!
