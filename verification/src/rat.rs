use vstd::prelude::*;

verus! {

/// A rational number in specification space: an unreduced fraction of
/// unbounded integers with a positive denominator. All value arithmetic of
/// the engine is specified over `Frac`.
pub struct Frac {
    pub n: int,
    pub d: int,
}

pub open spec fn frac_wf(f: Frac) -> bool {
    f.d >= 1
}

pub open spec fn frac_zero() -> Frac {
    Frac { n: 0, d: 1 }
}

pub open spec fn frac_from_int(n: int) -> Frac {
    Frac { n: n, d: 1 }
}

/// Semantic equality of fractions: a/b == c/d iff a*d == c*b.
pub open spec fn frac_eq(a: Frac, b: Frac) -> bool {
    a.n * b.d == b.n * a.d
}

/// Order on fractions with positive denominators.
pub open spec fn frac_le(a: Frac, b: Frac) -> bool {
    a.n * b.d <= b.n * a.d
}

pub open spec fn frac_lt(a: Frac, b: Frac) -> bool {
    a.n * b.d < b.n * a.d
}

/// Exact sum. A common denominator is kept as it stands so that the
/// executable arithmetic computes exactly this representative.
pub open spec fn frac_add(a: Frac, b: Frac) -> Frac {
    if a.d == b.d {
        Frac { n: a.n + b.n, d: a.d }
    } else {
        Frac { n: a.n * b.d + b.n * a.d, d: a.d * b.d }
    }
}

/// Exact product with an integer.
pub open spec fn frac_scale(a: Frac, k: int) -> Frac {
    Frac { n: a.n * k, d: a.d }
}

/// Exact quotient by a positive integer.
pub open spec fn frac_div(a: Frac, k: int) -> Frac {
    Frac { n: a.n, d: a.d * k }
}

/// Exact product of two fractions.
pub open spec fn frac_mul(a: Frac, b: Frac) -> Frac {
    Frac { n: a.n * b.n, d: a.d * b.d }
}

/// The inverse of a nonzero fraction, sign on the numerator.
pub open spec fn frac_inv(a: Frac) -> Frac {
    if a.n > 0 {
        Frac { n: a.d, d: a.n }
    } else {
        Frac { n: -a.d, d: -a.n }
    }
}

pub open spec fn frac_neg(a: Frac) -> Frac {
    Frac { n: -a.n, d: a.d }
}

/// Whether the fraction's representative fits the executable representation.
pub open spec fn frac_fits(f: Frac) -> bool {
    &&& i64::MIN <= f.n <= i64::MAX
    &&& 1 <= f.d <= i64::MAX
}

/// An exact rational value: the executable stand-in for the original track
/// scores. The denominator is always at least 1.
#[derive(Clone, Copy, Debug)]
pub struct Rat {
    num: i64,
    den: i64,
}

impl View for Rat {
    type V = Frac;

    closed spec fn view(&self) -> Frac {
        Frac { n: self.num as int, d: self.den as int }
    }
}

pub proof fn lemma_mul_range(a: int, b: int, abound: int, bbound: int)
    by (nonlinear_arith)
    requires
        -abound <= a <= abound,
        0 <= b <= bbound,
        0 <= abound,
    ensures
        -(abound * bbound) <= a * b <= abound * bbound,
{
}

pub proof fn lemma_mul_range_sym(a: int, b: int, abound: int, bbound: int)
    by (nonlinear_arith)
    requires
        -abound <= a <= abound,
        -bbound <= b <= bbound,
        0 <= abound,
        0 <= bbound,
    ensures
        -(abound * bbound) <= a * b <= abound * bbound,
{
}

pub proof fn lemma_mul_pos(a: int, b: int)
    by (nonlinear_arith)
    requires
        a >= 1,
        b >= 1,
    ensures
        a * b >= 1,
{
}

impl Rat {
    pub open spec fn wf(self) -> bool {
        frac_wf(self@)
    }

    /// Builds num/den; a denominator below 1 is rejected.
    pub fn new(num: i64, den: i64) -> (r: Option<Rat>)
        ensures
            match r {
                Some(x) => den >= 1 && x.wf() && x@ == (Frac { n: num as int, d: den as int }),
                None => den < 1,
            },
    {
        if den >= 1 {
            Some(Rat { num, den })
        } else {
            None
        }
    }

    pub fn from_int(v: i64) -> (r: Rat)
        ensures
            r.wf(),
            r@ == frac_from_int(v as int),
    {
        Rat { num: v, den: 1 }
    }

    pub fn zero() -> (r: Rat)
        ensures
            r.wf(),
            r@ == frac_zero(),
    {
        Rat { num: 0, den: 1 }
    }

    pub fn num(&self) -> (r: i64)
        ensures
            r as int == self@.n,
    {
        self.num
    }

    pub fn den(&self) -> (r: i64)
        ensures
            r as int == self@.d,
    {
        self.den
    }

    /// Exact sum; `None` exactly when the unreduced result does not fit.
    pub fn checked_add(self, other: Rat) -> (r: Option<Rat>)
        requires
            self.wf(),
            other.wf(),
        ensures
            match r {
                Some(x) => x.wf() && x@ == frac_add(self@, other@),
                None => !frac_fits(frac_add(self@, other@)),
            },
    {
        if self.den == other.den {
            match self.num.checked_add(other.num) {
                Some(n) => Some(Rat { num: n, den: self.den }),
                None => None,
            }
        } else {
            proof {
                lemma_mul_range(self.num as int, other.den as int, 0x8000_0000_0000_0000, 0x7fff_ffff_ffff_ffff);
                lemma_mul_range(other.num as int, self.den as int, 0x8000_0000_0000_0000, 0x7fff_ffff_ffff_ffff);
                lemma_mul_range(self.den as int, other.den as int, 0x8000_0000_0000_0000, 0x7fff_ffff_ffff_ffff);
                lemma_mul_pos(self.den as int, other.den as int);
            }
            let n1: i128 = (self.num as i128) * (other.den as i128);
            let n2: i128 = (other.num as i128) * (self.den as i128);
            let d: i128 = (self.den as i128) * (other.den as i128);
            let n: i128 = n1 + n2;
            if n >= i64::MIN as i128 && n <= i64::MAX as i128 && d <= i64::MAX as i128 {
                Some(Rat { num: n as i64, den: d as i64 })
            } else {
                None
            }
        }
    }

    /// Exact product with an integer; `None` exactly when the result does
    /// not fit.
    pub fn checked_scale(self, k: i64) -> (r: Option<Rat>)
        requires
            self.wf(),
        ensures
            match r {
                Some(x) => x.wf() && x@ == frac_scale(self@, k as int),
                None => !frac_fits(frac_scale(self@, k as int)),
            },
    {
        proof {
            lemma_mul_range_sym(self.num as int, k as int, 0x8000_0000_0000_0000, 0x8000_0000_0000_0000);
        }
        let n: i128 = (self.num as i128) * (k as i128);
        if n >= i64::MIN as i128 && n <= i64::MAX as i128 {
            Some(Rat { num: n as i64, den: self.den })
        } else {
            None
        }
    }

    /// Exact quotient by a positive integer; `None` exactly when the result
    /// does not fit.
    pub fn checked_div_int(self, k: i64) -> (r: Option<Rat>)
        requires
            self.wf(),
            k >= 1,
        ensures
            match r {
                Some(x) => x.wf() && x@ == frac_div(self@, k as int),
                None => !frac_fits(frac_div(self@, k as int)),
            },
    {
        proof {
            lemma_mul_range(self.den as int, k as int, 0x7fff_ffff_ffff_ffff, 0x7fff_ffff_ffff_ffff);
            lemma_mul_pos(self.den as int, k as int);
        }
        let d: i128 = (self.den as i128) * (k as i128);
        if d <= i64::MAX as i128 {
            Some(Rat { num: self.num, den: d as i64 })
        } else {
            None
        }
    }

    /// Exact product; `None` exactly when the unreduced result does not
    /// fit.
    pub fn checked_mul(self, other: Rat) -> (r: Option<Rat>)
        requires
            self.wf(),
            other.wf(),
        ensures
            match r {
                Some(x) => x.wf() && x@ == frac_mul(self@, other@),
                None => !frac_fits(frac_mul(self@, other@)),
            },
    {
        proof {
            lemma_mul_range_sym(self.num as int, other.num as int, 0x8000_0000_0000_0000, 0x8000_0000_0000_0000);
            lemma_mul_range(self.den as int, other.den as int, 0x7fff_ffff_ffff_ffff, 0x7fff_ffff_ffff_ffff);
            lemma_mul_pos(self.den as int, other.den as int);
        }
        let n: i128 = (self.num as i128) * (other.num as i128);
        let d: i128 = (self.den as i128) * (other.den as i128);
        if n >= i64::MIN as i128 && n <= i64::MAX as i128 && d <= i64::MAX as i128 {
            Some(Rat { num: n as i64, den: d as i64 })
        } else {
            None
        }
    }

    /// The multiplicative inverse, with the sign moved to the numerator.
    pub fn inverse(self) -> (r: Rat)
        requires
            self.wf(),
            self@.n != 0,
            self@.n > i64::MIN,
        ensures
            r.wf(),
            r@ == frac_inv(self@),
    {
        if self.num > 0 {
            Rat { num: self.den, den: self.num }
        } else {
            Rat { num: -self.den, den: -self.num }
        }
    }

    /// The negation.
    pub fn neg(self) -> (r: Rat)
        requires
            self.wf(),
            self@.n > i64::MIN,
        ensures
            r.wf(),
            r@ == frac_neg(self@),
    {
        Rat { num: -self.num, den: self.den }
    }

    /// Semantic equality test.
    pub fn eq_rat(&self, other: &Rat) -> (r: bool)
        requires
            self.wf(),
            other.wf(),
        ensures
            r == frac_eq(self@, other@),
    {
        proof {
            lemma_mul_range(self.num as int, other.den as int, 0x8000_0000_0000_0000, 0x7fff_ffff_ffff_ffff);
            lemma_mul_range(other.num as int, self.den as int, 0x8000_0000_0000_0000, 0x7fff_ffff_ffff_ffff);
        }
        (self.num as i128) * (other.den as i128) == (other.num as i128) * (self.den as i128)
    }

    /// Semantic order test.
    pub fn le(&self, other: &Rat) -> (r: bool)
        requires
            self.wf(),
            other.wf(),
        ensures
            r == frac_le(self@, other@),
    {
        proof {
            lemma_mul_range(self.num as int, other.den as int, 0x8000_0000_0000_0000, 0x7fff_ffff_ffff_ffff);
            lemma_mul_range(other.num as int, self.den as int, 0x8000_0000_0000_0000, 0x7fff_ffff_ffff_ffff);
        }
        (self.num as i128) * (other.den as i128) <= (other.num as i128) * (self.den as i128)
    }

    pub fn lt(&self, other: &Rat) -> (r: bool)
        requires
            self.wf(),
            other.wf(),
        ensures
            r == frac_lt(self@, other@),
    {
        proof {
            lemma_mul_range(self.num as int, other.den as int, 0x8000_0000_0000_0000, 0x7fff_ffff_ffff_ffff);
            lemma_mul_range(other.num as int, self.den as int, 0x8000_0000_0000_0000, 0x7fff_ffff_ffff_ffff);
        }
        (self.num as i128) * (other.den as i128) < (other.num as i128) * (self.den as i128)
    }

    pub fn is_zero(&self) -> (r: bool)
        requires
            self.wf(),
        ensures
            r == (self@.n == 0),
    {
        self.num == 0
    }
}

/// A represented rational always fits the representation.
pub proof fn lemma_rat_fits(r: Rat)
    requires
        r.wf(),
    ensures
        frac_fits(r@),
{
}

/// The order on fractions is transitive.
pub proof fn lemma_frac_le_trans(a: Frac, b: Frac, c: Frac)
    by (nonlinear_arith)
    requires
        frac_wf(a),
        frac_wf(b),
        frac_wf(c),
        frac_le(a, b),
        frac_le(b, c),
    ensures
        frac_le(a, c),
{
}

} // verus!
