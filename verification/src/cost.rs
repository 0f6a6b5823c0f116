//! Exact path costs. A step to a side neighbour costs 1 and a diagonal step
//! costs √2, so every cost that the search meets has the form
//! `units + diagonals·√2` with two integers. Costs are kept in that form and
//! ordered exactly, without rounding.
use vstd::prelude::*;

verus! {

/// The number `units + diagonals·√2`.
pub struct Weight {
    pub units: int,
    pub diagonals: int,
}

/// `0 < p + q·√2`, for integers `p` and `q`.
pub open spec fn positive(p: int, q: int) -> bool {
    ||| p > 0 && q >= 0
    ||| p >= 0 && q > 0
    ||| p > 0 && q < 0 && p * p > 2 * (q * q)
    ||| p < 0 && q > 0 && 2 * (q * q) > p * p
}

impl Weight {
    pub open spec fn zero() -> Weight {
        Weight { units: 0, diagonals: 0 }
    }

    pub open spec fn plus(self, other: Weight) -> Weight {
        Weight { units: self.units + other.units, diagonals: self.diagonals + other.diagonals }
    }

    /// `self < other` as real numbers.
    pub open spec fn lt(self, other: Weight) -> bool {
        positive(other.units - self.units, other.diagonals - self.diagonals)
    }

    /// `self <= other` as real numbers.
    pub open spec fn le(self, other: Weight) -> bool {
        !other.lt(self)
    }
}

/// On which side of `b·√2` the number `a` lies.
#[derive(Clone, Copy, Debug, PartialEq, Eq, Structural)]
pub enum Side {
    Below,
    Level,
    Above,
}

/// The side of `b·√2` on which `a` lies, for `a, b >= 0`.
pub open spec fn side_of(a: int, b: int) -> Side {
    if a * a < 2 * (b * b) {
        Side::Below
    } else if a * a > 2 * (b * b) {
        Side::Above
    } else {
        Side::Level
    }
}

impl Side {
    pub open spec fn flipped(self) -> Side {
        match self {
            Side::Below => Side::Above,
            Side::Level => Side::Level,
            Side::Above => Side::Below,
        }
    }
}

proof fn lemma_side_reduce(a: int, b: int)
    requires
        0 <= b < a,
        a - b < b,
    ensures
        side_of(a, b) == side_of(b - (a - b), a - b).flipped(),
{
    let c = b - (a - b);
    let d = a - b;
    assert(c * c - 2 * (d * d) == 2 * (b * b) - a * a) by (nonlinear_arith)
        requires
            c == b - (a - b),
            d == a - b,
    ;
}

proof fn lemma_side_small(a: int, b: int)
    requires
        0 <= a <= b,
    ensures
        side_of(a, b) == (if b == 0 { Side::Level } else { Side::Below }),
{
    assert(a * a <= b * b && (b > 0 ==> b * b > 0)) by (nonlinear_arith)
        requires
            0 <= a <= b,
    ;
}

proof fn lemma_side_large(a: int, b: int)
    requires
        0 <= b < a,
        a - b >= b,
    ensures
        side_of(a, b) == Side::Above,
{
    assert(a * a > 2 * (b * b)) by (nonlinear_arith)
        requires
            0 <= b < a,
            a >= 2 * b,
    ;
}

/// Finds the side of `b·√2` on which `a` lies. The pair `(a, b)` is replaced
/// by `(2b - a, a - b)`, which lies on the other side, until the answer can be
/// read off; no product is formed, so nothing can overflow.
pub fn sqrt2_side(a: u128, b: u128) -> (side: Side)
    ensures
        side == side_of(a as int, b as int),
{
    let mut a = a;
    let mut b = b;
    let mut flip = false;
    let ghost a0 = a as int;
    let ghost b0 = b as int;
    while b < a && a - b < b
        invariant
            side_of(a0, b0) == (if flip {
                side_of(a as int, b as int).flipped()
            } else {
                side_of(a as int, b as int)
            }),
        decreases b,
    {
        proof {
            lemma_side_reduce(a as int, b as int);
        }
        let rest = a - b;
        a = b - rest;
        b = rest;
        flip = !flip;
    }
    proof {
        if a <= b {
            lemma_side_small(a as int, b as int);
        } else {
            lemma_side_large(a as int, b as int);
        }
    }
    let side = if a <= b {
        if b == 0 {
            Side::Level
        } else {
            Side::Below
        }
    } else {
        Side::Above
    };
    if flip {
        match side {
            Side::Below => Side::Above,
            Side::Level => Side::Level,
            Side::Above => Side::Below,
        }
    } else {
        side
    }
}

/// An exact cost: `units` side steps and `diagonals` diagonal steps.
#[derive(Clone, Copy, Debug, PartialEq, Eq, Structural)]
pub struct Cost {
    pub units: u128,
    pub diagonals: u128,
}

impl View for Cost {
    type V = Weight;

    open spec fn view(&self) -> Weight {
        Weight { units: self.units as int, diagonals: self.diagonals as int }
    }
}

impl Cost {
    pub open spec fn spec_zero() -> Cost {
        Cost { units: 0, diagonals: 0 }
    }

    #[verifier::when_used_as_spec(spec_zero)]
    pub fn zero() -> (cost: Cost)
        ensures
            cost == Cost::spec_zero(),
    {
        Cost { units: 0, diagonals: 0 }
    }

    /// The sum, where it fits.
    pub open spec fn spec_plus(self, other: Cost) -> Cost {
        Cost {
            units: (self.units + other.units) as u128,
            diagonals: (self.diagonals + other.diagonals) as u128,
        }
    }

    pub open spec fn fits_plus(self, other: Cost) -> bool {
        self.units + other.units <= u128::MAX && self.diagonals + other.diagonals <= u128::MAX
    }

    pub fn plus(self, other: Cost) -> (sum: Cost)
        requires
            self.fits_plus(other),
        ensures
            sum == self.spec_plus(other),
            sum@ == self@.plus(other@),
    {
        Cost { units: self.units + other.units, diagonals: self.diagonals + other.diagonals }
    }

    /// Whether this cost is strictly less than `other`, as real numbers.
    pub fn lt(self, other: Cost) -> (less: bool)
        ensures
            less == self@.lt(other@),
    {
        proof {
            lemma_positive_by_side(
                other.units - self.units,
                other.diagonals - self.diagonals,
            );
        }
        if self.units < other.units {
            if other.diagonals >= self.diagonals {
                true
            } else {
                let side = sqrt2_side(other.units - self.units, self.diagonals - other.diagonals);
                side == Side::Above
            }
        } else {
            if other.diagonals > self.diagonals {
                let side = sqrt2_side(self.units - other.units, other.diagonals - self.diagonals);
                side == Side::Below
            } else {
                false
            }
        }
    }
}

/// Reads `0 < p + q·√2` off the side on which one magnitude lies of the other.
pub proof fn lemma_positive_by_side(p: int, q: int)
    ensures
        positive(p, q) == (if p > 0 {
            q >= 0 || side_of(p, -q) == Side::Above
        } else {
            q > 0 && side_of(-p, q) == Side::Below
        }),
{
    let m = -p;
    let n = -q;
    assert(m * m == p * p && n * n == q * q) by (nonlinear_arith)
        requires
            m == -p,
            n == -q,
    ;
    assert(q != 0 ==> q * q > 0) by (nonlinear_arith);
}

} // verus!
