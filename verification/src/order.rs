//! The order of lengths.
//!
//! `Length::lt` compares `a + b·√2` with `c + d·√2` by signs and squares of
//! integers. The lemmas here show that the comparison behaves as the order
//! of the real numbers does: it is a strict total order, adding a move makes
//! a length longer, and adding the same move on both sides changes nothing.

use crate::distance::{below_root_two, Distance, Length, Step};
use vstd::prelude::*;

verus! {

proof fn lemma_square_monotone(u: int, v: int)
    requires
        0 <= u <= v,
    ensures
        u * u <= v * v,
{
    assert(u * u <= v * v) by (nonlinear_arith)
        requires
            0 <= u <= v,
    ;
}

proof fn lemma_square_strictly_monotone(u: int, v: int)
    requires
        0 <= u < v,
    ensures
        u * u < v * v,
{
    assert(u * u < v * v) by (nonlinear_arith)
        requires
            0 <= u < v,
    ;
}

proof fn lemma_product_monotone(a: int, b: int, c: int, d: int)
    requires
        0 <= a <= c,
        0 <= b <= d,
    ensures
        a * b <= c * d,
{
    assert(a * b <= c * d) by (nonlinear_arith)
        requires
            0 <= a <= c,
            0 <= b <= d,
    ;
}

/// From `u₁ ≤ v₁·√2` and `u₂ ≤ v₂·√2`: `u₁·u₂ ≤ 2·v₁·v₂`.
proof fn lemma_product_below(u1: int, v1: int, u2: int, v2: int)
    requires
        0 <= u1,
        0 <= v1,
        0 <= u2,
        0 <= v2,
        u1 * u1 <= 2 * (v1 * v1),
        u2 * u2 <= 2 * (v2 * v2),
    ensures
        u1 * u2 <= 2 * (v1 * v2),
{
    let a = u1 * u2;
    let b = 2 * (v1 * v2);
    assert(0 <= b) by (nonlinear_arith)
        requires
            b == 2 * (v1 * v2),
            0 <= v1,
            0 <= v2,
    ;
    if b < a {
        lemma_square_strictly_monotone(b, a);
        assert(a * a == (u1 * u1) * (u2 * u2)) by (nonlinear_arith)
            requires
                a == u1 * u2,
        ;
        assert(b * b == (2 * (v1 * v1)) * (2 * (v2 * v2))) by (nonlinear_arith)
            requires
                b == 2 * (v1 * v2),
        ;
        assert(0 <= u1 * u1 && 0 <= u2 * u2) by (nonlinear_arith);
        lemma_product_monotone(u1 * u1, u2 * u2, 2 * (v1 * v1), 2 * (v2 * v2));
    }
}

/// From `u₁ ≥ v₁·√2` and `u₂ ≥ v₂·√2`: `u₁·u₂ ≥ 2·v₁·v₂`.
proof fn lemma_product_above(u1: int, v1: int, u2: int, v2: int)
    requires
        0 <= u1,
        0 <= v1,
        0 <= u2,
        0 <= v2,
        u1 * u1 >= 2 * (v1 * v1),
        u2 * u2 >= 2 * (v2 * v2),
    ensures
        u1 * u2 >= 2 * (v1 * v2),
{
    let a = u1 * u2;
    let b = 2 * (v1 * v2);
    assert(0 <= a) by (nonlinear_arith)
        requires
            a == u1 * u2,
            0 <= u1,
            0 <= u2,
    ;
    if a < b {
        lemma_square_strictly_monotone(a, b);
        assert(a * a == (u1 * u1) * (u2 * u2)) by (nonlinear_arith)
            requires
                a == u1 * u2,
        ;
        assert(b * b == (2 * (v1 * v1)) * (2 * (v2 * v2))) by (nonlinear_arith)
            requires
                b == 2 * (v1 * v2),
        ;
        assert(0 <= v1 * v1 && 0 <= v2 * v2) by (nonlinear_arith);
        lemma_product_monotone(2 * (v1 * v1), 2 * (v2 * v2), u1 * u1, u2 * u2);
    }
}

proof fn lemma_square_of_sum(u1: int, u2: int)
    ensures
        (u1 + u2) * (u1 + u2) == u1 * u1 + 2 * (u1 * u2) + u2 * u2,
{
    assert((u1 + u2) * (u1 + u2) == u1 * u1 + 2 * (u1 * u2) + u2 * u2) by (nonlinear_arith);
}

/// From `u₁ ≤ v₁·√2` and `u₂ < v₂·√2`: `u₁ + u₂ < (v₁ + v₂)·√2`.
proof fn lemma_sum_below(u1: int, v1: int, u2: int, v2: int)
    requires
        0 <= u1,
        0 <= v1,
        0 <= u2,
        0 <= v2,
        u1 * u1 <= 2 * (v1 * v1),
        u2 * u2 < 2 * (v2 * v2),
    ensures
        (u1 + u2) * (u1 + u2) < 2 * ((v1 + v2) * (v1 + v2)),
{
    lemma_product_below(u1, v1, u2, v2);
    lemma_square_of_sum(u1, u2);
    lemma_square_of_sum(v1, v2);
}

/// From `u₁ ≥ v₁·√2` and `u₂ > v₂·√2`: `u₁ + u₂ > (v₁ + v₂)·√2`.
proof fn lemma_sum_above(u1: int, v1: int, u2: int, v2: int)
    requires
        0 <= u1,
        0 <= v1,
        0 <= u2,
        0 <= v2,
        u1 * u1 >= 2 * (v1 * v1),
        u2 * u2 > 2 * (v2 * v2),
    ensures
        (u1 + u2) * (u1 + u2) > 2 * ((v1 + v2) * (v1 + v2)),
{
    lemma_product_above(u1, v1, u2, v2);
    lemma_square_of_sum(u1, u2);
    lemma_square_of_sum(v1, v2);
}

pub proof fn lemma_square_of_opposite(p: int)
    ensures
        (-p) * (-p) == p * p,
{
    assert((-p) * (-p) == p * p) by (nonlinear_arith);
}

/// From `p₁ < q₁·√2` and `p₂ < q₂·√2`: `p₁ + p₂ < (q₁ + q₂)·√2`.
pub proof fn lemma_below_root_two_adds(pa: int, qa: int, pb: int, qb: int)
    requires
        below_root_two(pa, qa),
        below_root_two(pb, qb),
    ensures
        below_root_two(pa + pb, qa + qb),
{
    reveal(below_root_two);
    let p = pa + pb;
    let q = qa + qb;
    lemma_square_of_opposite(pa);
    lemma_square_of_opposite(qa);
    lemma_square_of_opposite(pb);
    lemma_square_of_opposite(qb);
    lemma_square_of_opposite(p);
    lemma_square_of_opposite(q);
    if pa < 0 && qa < 0 && pb < 0 && qb < 0 {
        lemma_sum_above(-pa, -qa, -pb, -qb);
    } else if pa >= 0 && pb >= 0 {
        lemma_sum_below(pa, qa, pb, qb);
    } else if pa < 0 && qa < 0 && pb >= 0 {
        lemma_below_mixed(-pa, -qa, pb, qb);
    } else if pb < 0 && qb < 0 && pa >= 0 {
        lemma_below_mixed(-pb, -qb, pa, qa);
    } else if pa < 0 && qa >= 0 {
        lemma_below_with_plain(pa, qa, pb, qb);
    } else {
        lemma_below_with_plain(pb, qb, pa, qa);
    }
}

/// The sum of a pair with `p₁ < 0 ≤ q₁` and any pair below.
proof fn lemma_below_with_plain(pa: int, qa: int, pb: int, qb: int)
    requires
        pa < 0,
        qa >= 0,
        below_root_two(pb, qb),
    ensures
        below_root_two(pa + pb, qa + qb),
{
    reveal(below_root_two);
    let p = pa + pb;
    let q = qa + qb;
    lemma_square_of_opposite(pb);
    lemma_square_of_opposite(qb);
    lemma_square_of_opposite(p);
    lemma_square_of_opposite(q);
    if pb < 0 {
        if q < 0 {
            // |p| ≥ |p₂| > |q₂|·√2 ≥ |q|·√2
            lemma_square_monotone(-pb, -p);
            lemma_square_monotone(-q, -qb);
        }
    } else {
        if p >= 0 {
            // p ≤ p₂ < q₂·√2 ≤ q·√2
            lemma_square_monotone(p, pb);
            lemma_square_monotone(qb, q);
        }
    }
}

/// From `a > b·√2` and `c < d·√2`, all of them natural:
/// `c - a < (d - b)·√2`.
proof fn lemma_below_mixed(a: int, b: int, c: int, d: int)
    requires
        0 < a,
        0 < b,
        0 <= c,
        0 < d,
        a * a > 2 * (b * b),
        c * c < 2 * (d * d),
    ensures
        below_root_two(c - a, d - b),
{
    reveal(below_root_two);
    let p = c - a;
    let q = d - b;
    lemma_square_of_opposite(p);
    lemma_square_of_opposite(q);
    if p < 0 {
        if q < 0 && p * p <= 2 * (q * q) {
            lemma_sum_below(a - c, b - d, c, d);
        }
    } else {
        if q <= 0 {
            lemma_square_monotone(a, c);
            lemma_square_monotone(d, b);
        } else if p * p >= 2 * (q * q) {
            lemma_sum_above(c - a, d - b, a, b);
        }
    }
}

/// No square of a natural number but 0 is twice a square: √2 is irrational.
proof fn lemma_no_square_is_double(u: nat, v: nat)
    requires
        u * u == 2 * (v * v),
    ensures
        u == 0,
        v == 0,
    decreases u,
{
    if u > 0 {
        let k = u / 2;
        if u % 2 == 1 {
            assert(u * u == 2 * (2 * (k * k) + 2 * k) + 1) by (nonlinear_arith)
                requires
                    u == 2 * k + 1,
            ;
        }
        assert(u == 2 * k);
        assert(v * v == 2 * (k * k)) by (nonlinear_arith)
            requires
                u == 2 * k,
                u * u == 2 * (v * v),
        ;
        if v >= u {
            lemma_square_monotone(u as int, v as int);
            assert(false) by (nonlinear_arith)
                requires
                    u > 0,
                    u * u <= v * v,
                    u * u == 2 * (v * v),
            ;
        }
        lemma_no_square_is_double(v, k);
    } else {
        assert(v == 0) by (nonlinear_arith)
            requires
                0 == 2 * (v * v),
        ;
    }
}

/// Of two integers `p`, `q` that are not both 0, either `p < q·√2` or
/// `p > q·√2`.
proof fn lemma_below_or_above(p: int, q: int)
    requires
        p != 0 || q != 0,
    ensures
        below_root_two(p, q) || below_root_two(-p, -q),
{
    reveal(below_root_two);
    lemma_square_of_opposite(p);
    lemma_square_of_opposite(q);
    let u: nat = (if p < 0 { -p } else { p }) as nat;
    let v: nat = (if q < 0 { -q } else { q }) as nat;
    assert(u * u == p * p);
    assert(v * v == q * q);
    if u * u == 2 * (v * v) {
        lemma_no_square_is_double(u, v);
    }
}

impl Length {
    /// No length is shorter than itself.
    pub proof fn lemma_lt_irreflexive(self)
        ensures
            !self.lt(self),
    {
        reveal(below_root_two);
    }

    /// Shorter than something shorter is shorter.
    pub proof fn lemma_lt_transitive(self, middle: Length, other: Length)
        requires
            self.lt(middle),
            middle.lt(other),
        ensures
            self.lt(other),
    {
        lemma_below_root_two_adds(
            self.straight - middle.straight,
            middle.diagonal - self.diagonal,
            middle.straight - other.straight,
            other.diagonal - middle.diagonal,
        );
    }

    /// Of two different lengths one is the shorter: the counts determine the
    /// real number, and the order is total.
    pub proof fn lemma_lt_total(self, other: Length)
        ensures
            self == other || self.lt(other) || other.lt(self),
    {
        if self != other {
            lemma_below_or_above(
                self.straight - other.straight,
                other.diagonal - self.diagonal,
            );
        }
    }

    /// Of two lengths at most one is shorter than the other.
    pub proof fn lemma_lt_asymmetric(self, other: Length)
        ensures
            !(self.lt(other) && other.lt(self)),
    {
        if self.lt(other) && other.lt(self) {
            self.lemma_lt_transitive(other, self);
            self.lemma_lt_irreflexive();
        }
    }

    /// `le` is transitive, and mixes with `lt`.
    pub proof fn lemma_le_transitive(self, middle: Length, other: Length)
        requires
            self.le(middle),
            middle.le(other),
        ensures
            self.le(other),
            self.lt(middle) || middle.lt(other) ==> self.lt(other),
    {
        self.lemma_lt_total(middle);
        middle.lemma_lt_total(other);
        self.lemma_lt_irreflexive();
        if self.lt(middle) && middle.lt(other) {
            self.lemma_lt_transitive(middle, other);
        }
        if other.lt(self) {
            if self == middle {
            } else if middle == other {
            } else {
                self.lemma_lt_transitive(middle, other);
                other.lemma_lt_transitive(self, other);
                other.lemma_lt_irreflexive();
            }
        }
    }

    /// One more move makes a length longer.
    pub proof fn lemma_plus_is_longer(self, step: Step)
        ensures
            self.lt(self.plus(step)),
    {
        reveal(below_root_two);
        let p = self.straight - self.plus(step).straight;
        let q = self.plus(step).diagonal - self.diagonal;
        match step {
            Step::Straight => {
                assert(p == -1 && q == 0);
            },
            Step::Diagonal => {
                assert(p == 0 && q == 1);
            },
        }
        lemma_small_squares(p, q);
    }

    /// The same move on both sides leaves the order as it was.
    pub proof fn lemma_plus_keeps_order(self, other: Length, step: Step)
        ensures
            self.plus(step).lt(other.plus(step)) == self.lt(other),
    {
        assert(self.plus(step).straight - other.plus(step).straight == self.straight
            - other.straight);
        assert(other.plus(step).diagonal - self.plus(step).diagonal == other.diagonal
            - self.diagonal);
    }

    /// Two moves of any kind are longer than one of any kind: going round
    /// is farther than going straight there.
    pub proof fn lemma_two_moves_are_longer(self, direct: Step, first: Step, second: Step)
        ensures
            self.plus(direct).lt(self.plus(first).plus(second)),
    {
        let p = self.plus(direct).straight - self.plus(first).plus(second).straight;
        let q = self.plus(first).plus(second).diagonal - self.plus(direct).diagonal;
        assert(-2 <= p <= 1 && -1 <= q <= 2);
        reveal(below_root_two);
        lemma_small_squares(p, q);
    }
}

/// The squares of the integers from -2 to 2.
proof fn lemma_small_squares(p: int, q: int)
    requires
        -2 <= p <= 2,
        -2 <= q <= 2,
    ensures
        p * p == (if p == 0 {
            0int
        } else if p == 1 || p == -1 {
            1int
        } else {
            4int
        }),
        q * q == (if q == 0 {
            0int
        } else if q == 1 || q == -1 {
            1int
        } else {
            4int
        }),
{
    assert(p * p == (if p == 0 {
        0int
    } else if p == 1 || p == -1 {
        1int
    } else {
        4int
    })) by (nonlinear_arith)
        requires
            -2 <= p <= 2,
    ;
    assert(q * q == (if q == 0 {
        0int
    } else if q == 1 || q == -1 {
        1int
    } else {
        4int
    })) by (nonlinear_arith)
        requires
            -2 <= q <= 2,
    ;
}

impl Distance {
    /// No distance is shorter than itself.
    pub proof fn lemma_lt_irreflexive(self)
        ensures
            !self.lt(self),
    {
        if self is Finite {
            self@.unwrap().lemma_lt_irreflexive();
        }
    }

    /// No distance is shorter than zero.
    pub proof fn lemma_zero_is_least(self)
        ensures
            !self.lt(Distance::zero()),
    {
        reveal(below_root_two);
    }

    /// Of two distances at most one is shorter than the other.
    pub proof fn lemma_lt_asymmetric(self, other: Distance)
        ensures
            !(self.lt(other) && other.lt(self)),
    {
        if self.lt(other) && other.lt(self) {
            self@.unwrap().lemma_lt_transitive(other@.unwrap(), self@.unwrap());
            self@.unwrap().lemma_lt_irreflexive();
        }
    }

    /// Not being longer is transitive too: the order is total, up to the
    /// distances that stand for the same length.
    pub proof fn lemma_not_longer_transitive(self, middle: Distance, other: Distance)
        requires
            !middle.lt(self),
            !other.lt(middle),
        ensures
            !other.lt(self),
            self.lt(middle) || middle.lt(other) ==> self.lt(other),
    {
        if self is Finite && middle is Finite && other is Finite {
            self@.unwrap().lemma_le_transitive(middle@.unwrap(), other@.unwrap());
        }
    }

    /// One more move makes a finite distance longer, and adds the move to
    /// the length it stands for, as long as the counts have room for it.
    pub proof fn lemma_plus_is_longer(self, step: Step)
        requires
            self is Finite,
            self.extendable(),
        ensures
            self.lt(self.plus(step)),
            self.plus(step)@ == Some(self@.unwrap().plus(step)),
    {
        self@.unwrap().lemma_plus_is_longer(step);
    }
}

} // verus!
