//! The order of costs: the numbers `units + diagonals·√2` are ordered as the
//! real numbers are.
use crate::cost::{positive, Weight};
use vstd::prelude::*;

verus! {

/// No integer's square is twice another's, but for zero: √2 is irrational.
pub proof fn lemma_sqrt2_irrational(p: int, q: int)
    requires
        p * p == 2 * (q * q),
    ensures
        p == 0,
        q == 0,
    decreases
            if p < 0 {
                -p
            } else {
                p
            },
{
    if p != 0 || q != 0 {
        // p is even, so q is even too, and the halves have the same property
        let h = p / 2;
        assert(p % 2 == 0) by (nonlinear_arith)
            requires
                p * p == 2 * (q * q),
        {
            let r = p / 2;
            if p % 2 != 0 {
                assert(p == 2 * r + 1);
                assert(p * p == 2 * (2 * (r * r) + 2 * r) + 1);
            }
        }
        assert(p == 2 * h);
        assert(q * q == 2 * (h * h)) by (nonlinear_arith)
            requires
                p * p == 2 * (q * q),
                p == 2 * h,
        ;
        assert(q != 0) by (nonlinear_arith)
            requires
                p * p == 2 * (q * q),
                p != 0 || q != 0,
        ;
        assert(h != 0 && (if q < 0 {
            -q
        } else {
            q
        }) < (if p < 0 {
            -p
        } else {
            p
        })) by (nonlinear_arith)
            requires
                p * p == 2 * (q * q),
                q != 0,
                p == 2 * h,
        ;
        lemma_sqrt2_irrational(q, h);
    }
}

/// Of a number and its negative, exactly one is positive, unless both are zero.
pub proof fn lemma_sign(p: int, q: int)
    ensures
        positive(p, q) ==> !positive(-p, -q),
        !positive(p, q) && !positive(-p, -q) ==> p == 0 && q == 0,
{
    let m = -p;
    let n = -q;
    assert(m * m == p * p && n * n == q * q) by (nonlinear_arith)
        requires
            m == -p,
            n == -q,
    ;
    if !positive(p, q) && !positive(-p, -q) {
        if p != 0 || q != 0 {
            assert(p * p == 2 * (q * q));
            lemma_sqrt2_irrational(p, q);
        }
    }
}

/// The sum of two positive numbers is positive.
pub proof fn lemma_positive_sum(pa: int, qa: int, pb: int, qb: int)
    requires
        positive(pa, qa),
        positive(pb, qb),
    ensures
        positive(pa + pb, qa + qb),
{
    let p = pa + pb;
    let q = qa + qb;
    if p >= 0 && q >= 0 {
        // not both zero: then one would be the other's negative
        if p == 0 && q == 0 {
            lemma_sign(pa, qa);
            assert(pb == -pa && qb == -qa);
        }
    } else if p <= 0 && q <= 0 {
        lemma_mixed(pa, qa, pb, qb);
    } else {
        lemma_mixed(pa, qa, pb, qb);
    }
}

/// The part of `lemma_positive_sum` in which the sum's two parts have
/// different signs, or none is positive.
proof fn lemma_mixed(pa: int, qa: int, pb: int, qb: int)
    requires
        positive(pa, qa),
        positive(pb, qb),
        !(pa + pb >= 0 && qa + qb >= 0),
    ensures
        positive(pa + pb, qa + qb),
{
    let p = pa + pb;
    let q = qa + qb;
    lemma_square_of_negative(pa);
    lemma_square_of_negative(qa);
    lemma_square_of_negative(pb);
    lemma_square_of_negative(qb);
    if q < 0 {
        // some q_i is negative, so its p_i is positive and large
        if qa < 0 && qb < 0 {
            lemma_above_sum(pa, -qa, pb, -qb);
        } else if qa < 0 {
            // qb >= 0; pb may be negative
            if pb >= 0 {
                lemma_above_grow(pa, -qa, pb, qb);
            } else {
                lemma_above_shrink(pa, -qa, -pb, qb);
            }
        } else {
            if pa >= 0 {
                lemma_above_grow(pb, -qb, pa, qa);
            } else {
                lemma_above_shrink(pb, -qb, -pa, qa);
            }
        }
    } else {
        // q >= 0 and p < 0
        if pa < 0 && pb < 0 {
            lemma_above_sum_dual(qa, -pa, qb, -pb);
        } else if pa < 0 {
            if qb >= 0 {
                lemma_below_grow(-pa, qa, pb, qb);
            } else {
                lemma_below_shrink(-pa, qa, pb, -qb);
            }
        } else {
            if qa >= 0 {
                lemma_below_grow(-pb, qb, pa, qa);
            } else {
                lemma_below_shrink(-pb, qb, pa, -qa);
            }
        }
    }
}

/// A number and its negative have the same square.
proof fn lemma_square_of_negative(x: int)
    ensures
        (-x) * (-x) == x * x,
{
    let y = -x;
    assert(y * y == x * x) by (nonlinear_arith)
        requires
            y == -x,
    ;
}

/// `a > b√2` and `c > d√2` give `a + c > (b + d)√2`.
proof fn lemma_above_sum(a: int, b: int, c: int, d: int)
    requires
        a > 0,
        b > 0,
        c > 0,
        d > 0,
        a * a > 2 * (b * b),
        c * c > 2 * (d * d),
    ensures
        (a + c) * (a + c) > 2 * ((-b - d) * (-b - d)),
        a + c > 0,
        -b - d < 0,
{
    // (ac)^2 > 4 (bd)^2, so ac > 2bd
    assert((a * c) * (a * c) > (2 * (b * d)) * (2 * (b * d))) by (nonlinear_arith)
        requires
            a > 0,
            b > 0,
            c > 0,
            d > 0,
            a * a > 2 * (b * b),
            c * c > 2 * (d * d),
    {
        assert((a * a) * (c * c) > (2 * (b * b)) * (2 * (d * d)));
        assert((a * c) * (a * c) == (a * a) * (c * c));
        assert((2 * (b * d)) * (2 * (b * d)) == (2 * (b * b)) * (2 * (d * d)));
    }
    lemma_square_order(2 * (b * d), a * c);
    assert((a + c) * (a + c) > 2 * ((-b - d) * (-b - d))) by (nonlinear_arith)
        requires
            a * a > 2 * (b * b),
            c * c > 2 * (d * d),
            a * c > 2 * (b * d),
    ;
}

/// Of two numbers that are not negative, the one with the larger square is the
/// larger.
proof fn lemma_square_order(x: int, y: int)
    requires
        0 <= x,
        0 < y,
        x * x < y * y,
    ensures
        x < y,
{
    assert(x < y) by (nonlinear_arith)
        requires
            0 <= x,
            0 < y,
            x * x < y * y,
    ;
}

/// `b√2 > a` and `d√2 > c` give `(b + d)√2 > a + c`, with the parts as
/// `lemma_mixed` has them.
proof fn lemma_above_sum_dual(b: int, a: int, d: int, c: int)
    requires
        a > 0,
        b > 0,
        c > 0,
        d > 0,
        2 * (b * b) > a * a,
        2 * (d * d) > c * c,
    ensures
        2 * ((b + d) * (b + d)) > (-a - c) * (-a - c),
        b + d > 0,
        -a - c < 0,
{
    assert((2 * (b * d)) * (2 * (b * d)) > (a * c) * (a * c)) by (nonlinear_arith)
        requires
            a > 0,
            b > 0,
            c > 0,
            d > 0,
            2 * (b * b) > a * a,
            2 * (d * d) > c * c,
    {
        assert((2 * (b * b)) * (2 * (d * d)) > (a * a) * (c * c));
        assert((a * c) * (a * c) == (a * a) * (c * c));
        assert((2 * (b * d)) * (2 * (b * d)) == (2 * (b * b)) * (2 * (d * d)));
    }
    assert(2 * (b * d) > 0) by (nonlinear_arith)
        requires
            b > 0,
            d > 0,
    ;
    lemma_square_order(a * c, 2 * (b * d));
    assert(2 * ((b + d) * (b + d)) > (-a - c) * (-a - c)) by (nonlinear_arith)
        requires
            2 * (b * b) > a * a,
            2 * (d * d) > c * c,
            2 * (b * d) > a * c,
    ;
}

/// `a > b√2`, with `c, d >= 0` added: if the sum's second part is still
/// negative, the sum is still positive.
proof fn lemma_above_grow(a: int, b: int, c: int, d: int)
    requires
        a > 0,
        b > 0,
        a * a > 2 * (b * b),
        c >= 0,
        d >= 0,
        d - b < 0,
    ensures
        a + c > 0,
        (a + c) * (a + c) > 2 * ((d - b) * (d - b)),
{
    assert((a + c) * (a + c) >= a * a && (d - b) * (d - b) <= b * b) by (nonlinear_arith)
        requires
            a > 0,
            c >= 0,
            b > 0,
            d >= 0,
            d - b < 0,
    ;
}

/// `a > b√2` and `d√2 > c`, with `a - c` and `d - b` of different signs or
/// both not positive: the sum `(a - c) + (d - b)√2` is positive.
proof fn lemma_above_shrink(a: int, b: int, c: int, d: int)
    requires
        a > 0,
        b > 0,
        c > 0,
        d > 0,
        a * a > 2 * (b * b),
        2 * (d * d) > c * c,
        !(a - c >= 0 && d - b >= 0),
    ensures
        positive(a - c, d - b),
{
    // a·d > b·c, since (ad)^2 > 2 (bd)^2 >= ... > (bc)^2
    assert((a * d) * (a * d) > (b * c) * (b * c)) by (nonlinear_arith)
        requires
            a > 0,
            b > 0,
            c > 0,
            d > 0,
            a * a > 2 * (b * b),
            2 * (d * d) > c * c,
    {
        assert((a * a) * (2 * (d * d)) > (2 * (b * b)) * (c * c));
        assert((a * d) * (a * d) == (a * a) * (d * d));
        assert((b * c) * (b * c) == (b * b) * (c * c));
    }
    assert(a * d > 0 && b * c > 0) by (nonlinear_arith)
        requires
            a > 0,
            b > 0,
            c > 0,
            d > 0,
    ;
    lemma_square_order(b * c, a * d);
    let p = a - c;
    let q = d - b;
    if p > 0 && q < 0 {
        // b > d, a > c: (a - c)·b > a·(b - d), so p^2 b^2 > a^2 (b-d)^2 > 2 b^2 q^2
        assert(p * p > 2 * (q * q)) by (nonlinear_arith)
            requires
                a > 0,
                b > 0,
                c > 0,
                d > 0,
                p == a - c,
                q == d - b,
                p > 0,
                q < 0,
                a * a > 2 * (b * b),
                a * d > b * c,
        {
            let e = b - d;
            assert(p * b > a * e);
            assert(a * e > 0);
            assert((p * b) * (p * b) > (a * e) * (a * e));
            assert((p * b) * (p * b) == (p * p) * (b * b));
            assert((a * e) * (a * e) == (a * a) * (e * e));
            assert((a * a) * (e * e) > (2 * (b * b)) * (e * e));
            assert((p * p) * (b * b) > (2 * (e * e)) * (b * b));
            assert(e * e == q * q);
        }
    } else if p < 0 && q > 0 {
        // c > a, d > b: c·(d - b) > d·(c - a), so c^2 q^2 > d^2 p^2, and 2 d^2 > c^2
        assert(2 * (q * q) > p * p) by (nonlinear_arith)
            requires
                a > 0,
                b > 0,
                c > 0,
                d > 0,
                p == a - c,
                q == d - b,
                p < 0,
                q > 0,
                2 * (d * d) > c * c,
                a * d > b * c,
        {
            let e = c - a;
            assert(c * q > d * e);
            assert(d * e > 0);
            assert((c * q) * (c * q) > (d * e) * (d * e));
            assert((c * q) * (c * q) == (c * c) * (q * q));
            assert((d * e) * (d * e) == (d * d) * (e * e));
            assert((2 * (d * d)) * (q * q) > (c * c) * (q * q));
            assert((2 * (q * q)) * (d * d) > (e * e) * (d * d));
            assert(e * e == p * p);
        }
    } else {
        // p <= 0 and q <= 0: then c >= a and b >= d, so b·c >= a·d
        assert(b * c >= a * d) by (nonlinear_arith)
            requires
                a > 0,
                d > 0,
                c >= a,
                b >= d,
        ;
    }
}

/// `b√2 > a`, with `c, d >= 0` added: if the sum's first part is still
/// negative, the sum is still positive.
proof fn lemma_below_grow(a: int, b: int, c: int, d: int)
    requires
        a > 0,
        b > 0,
        2 * (b * b) > a * a,
        c >= 0,
        d >= 0,
        c - a < 0,
    ensures
        b + d > 0,
        2 * ((b + d) * (b + d)) > (c - a) * (c - a),
{
    assert((b + d) * (b + d) >= b * b && (c - a) * (c - a) <= a * a) by (nonlinear_arith)
        requires
            a > 0,
            c >= 0,
            b > 0,
            d >= 0,
            c - a < 0,
    ;
}

/// `b√2 > a` and `c > d√2`, with `c - a` and `b - d` of different signs or
/// both not positive: the sum `(c - a) + (b - d)√2` is positive.
proof fn lemma_below_shrink(a: int, b: int, c: int, d: int)
    requires
        a > 0,
        b > 0,
        c > 0,
        d > 0,
        2 * (b * b) > a * a,
        c * c > 2 * (d * d),
        !(c - a >= 0 && b - d >= 0),
    ensures
        positive(c - a, b - d),
{
    lemma_above_shrink(c, d, a, b);
}

impl Weight {
    /// No number is less than itself.
    pub proof fn lemma_lt_irreflexive(self)
        ensures
            !self.lt(self),
    {
    }

    /// Of two numbers, at most one is less than the other.
    pub proof fn lemma_lt_asymmetric(self, other: Weight)
        ensures
            self.lt(other) ==> !other.lt(self),
    {
        lemma_sign(other.units - self.units, other.diagonals - self.diagonals);
    }

    /// Two numbers of which none is less than the other are the same.
    pub proof fn lemma_lt_total(self, other: Weight)
        ensures
            self.lt(other) || other.lt(self) || self == other,
    {
        lemma_sign(other.units - self.units, other.diagonals - self.diagonals);
    }

    pub proof fn lemma_lt_transitive(self, middle: Weight, other: Weight)
        requires
            self.lt(middle),
            middle.lt(other),
        ensures
            self.lt(other),
    {
        lemma_positive_sum(
            middle.units - self.units,
            middle.diagonals - self.diagonals,
            other.units - middle.units,
            other.diagonals - middle.diagonals,
        );
    }

    pub proof fn lemma_le_transitive(self, middle: Weight, other: Weight)
        requires
            self.le(middle),
            middle.le(other),
        ensures
            self.le(other),
    {
        if other.lt(self) {
            // other < self <= middle, so other < middle
            other.lemma_lt_le(self, middle);
        }
    }

    /// `self < middle <= other` gives `self < other`.
    pub proof fn lemma_lt_le(self, middle: Weight, other: Weight)
        requires
            self.lt(middle),
            middle.le(other),
        ensures
            self.lt(other),
    {
        middle.lemma_lt_total(other);
        if middle.lt(other) {
            self.lemma_lt_transitive(middle, other);
        }
    }

    /// Adding the same number on both sides keeps the order.
    pub proof fn lemma_plus_monotone(self, other: Weight, added: Weight)
        ensures
            self.lt(other) == self.plus(added).lt(other.plus(added)),
            self.le(other) == self.plus(added).le(other.plus(added)),
    {
    }

    /// Sums of numbers in order are in order.
    pub proof fn lemma_plus_le(self, other: Weight, left: Weight, right: Weight)
        requires
            self.le(other),
            left.le(right),
        ensures
            self.plus(left).le(other.plus(right)),
    {
        self.lemma_plus_monotone(other, left);
        left.lemma_plus_monotone(right, other);
        let a = self.plus(left);
        let b = other.plus(left);
        let c = other.plus(right);
        assert(left.plus(other) == b);
        assert(right.plus(other) == c);
        a.lemma_le_transitive(b, c);
    }
}

} // verus!
