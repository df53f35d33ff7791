//! Exact lengths of paths made of king moves.
//!
//! A move to a side neighbour has length 1 and a move to a corner neighbour
//! has length √2, so every path has a length of the form `a + b·√2` with
//! natural `a` and `b`. A [`Length`] is that pair of counts, and two lengths
//! are compared exactly, by integer arithmetic alone. A [`Distance`] is what a
//! cell carries during a search: a length in machine integers, or `Infinite`.

use crate::order::lemma_square_of_opposite;
use vstd::prelude::*;

verus! {

/// One king move: to a side neighbour or to a corner neighbour.
#[derive(Clone, Copy, Debug, PartialEq, Eq, Structural)]
pub enum Step {
    /// Length 1.
    Straight,
    /// Length √2.
    Diagonal,
}

/// The real number `straight + diagonal·√2`.
pub struct Length {
    pub straight: nat,
    pub diagonal: nat,
}

/// `p < q·√2`, for integers `p` and `q` of either sign, decided over the
/// integers: by the signs where they settle it, else by comparing `p²` with
/// `2·q²`.
#[verifier::opaque]
pub open spec fn below_root_two(p: int, q: int) -> bool {
    if p < 0 {
        q >= 0 || p * p > 2 * (q * q)
    } else {
        q > 0 && p * p < 2 * (q * q)
    }
}

impl Length {
    /// The length of the empty path.
    pub open spec fn zero() -> Length {
        Length { straight: 0, diagonal: 0 }
    }

    /// The number of moves of a path of this length.
    pub open spec fn hops(self) -> nat {
        self.straight + self.diagonal
    }

    /// This length with one more move.
    pub open spec fn plus(self, step: Step) -> Length {
        match step {
            Step::Straight => Length { straight: self.straight + 1, diagonal: self.diagonal },
            Step::Diagonal => Length { straight: self.straight, diagonal: self.diagonal + 1 },
        }
    }

    /// Strictly shorter: `s₁ + d₁·√2 < s₂ + d₂·√2`, that is
    /// `s₁ - s₂ < (d₂ - d₁)·√2`.
    pub open spec fn lt(self, other: Length) -> bool {
        below_root_two(self.straight - other.straight, other.diagonal - self.diagonal)
    }

    /// Not longer.
    pub open spec fn le(self, other: Length) -> bool {
        !other.lt(self)
    }
}

/// A tentative distance: the length of a path in machine integers, or the
/// mark of a cell that no path has reached yet.
#[derive(Clone, Copy, Debug, PartialEq, Eq)]
pub enum Distance {
    /// The length `straight + diagonal·√2`.
    Finite { straight: usize, diagonal: usize },
    Infinite,
}

impl View for Distance {
    type V = Option<Length>;

    /// The length that the distance stands for; `None` for `Infinite`.
    open spec fn view(&self) -> Option<Length> {
        match *self {
            Distance::Finite { straight, diagonal } => Some(
                Length { straight: straight as nat, diagonal: diagonal as nat },
            ),
            Distance::Infinite => None,
        }
    }
}

impl Distance {
    /// The distance of a cell from itself.
    pub open spec fn zero() -> Distance {
        Distance::Finite { straight: 0, diagonal: 0 }
    }

    /// The number of moves of a path of this length; 0 for `Infinite`.
    pub open spec fn hops(self) -> nat {
        match self@ {
            Some(length) => length.hops(),
            None => 0,
        }
    }

    /// Strictly shorter, by the lengths. Every finite distance is shorter
    /// than `Infinite`, and `Infinite` is shorter than nothing.
    pub open spec fn lt(self, other: Distance) -> bool {
        match (self@, other@) {
            (Some(a), Some(b)) => a.lt(b),
            (Some(_), None) => true,
            (None, _) => false,
        }
    }

    /// This distance with one more move; `Infinite` stays `Infinite`. The
    /// counts are machine integers: see `extendable`.
    pub open spec fn plus(self, step: Step) -> Distance {
        match self {
            Distance::Finite { straight, diagonal } => match step {
                Step::Straight => Distance::Finite {
                    straight: (straight + 1) as usize,
                    diagonal,
                },
                Step::Diagonal => Distance::Finite {
                    straight,
                    diagonal: (diagonal + 1) as usize,
                },
            },
            Distance::Infinite => Distance::Infinite,
        }
    }

    /// Whether the counts leave room for one more move of either kind.
    pub open spec fn extendable(self) -> bool {
        self matches Distance::Finite { straight, diagonal } ==> straight < usize::MAX && diagonal
            < usize::MAX
    }

    /// The distance of a cell from itself.
    pub fn origin() -> (d: Distance)
        ensures
            d == Distance::zero(),
    {
        Distance::Finite { straight: 0, diagonal: 0 }
    }

    pub fn is_finite(&self) -> (b: bool)
        ensures
            b == (*self is Finite),
    {
        match self {
            Distance::Finite { .. } => true,
            Distance::Infinite => false,
        }
    }

    /// Adds one move to the distance.
    pub fn extend(&self, step: Step) -> (d: Distance)
        requires
            self.extendable(),
        ensures
            d == self.plus(step),
            d@ == match self@ {
                Some(length) => Some(length.plus(step)),
                None => None,
            },
    {
        match *self {
            Distance::Finite { straight, diagonal } => match step {
                Step::Straight => Distance::Finite { straight: straight + 1, diagonal },
                Step::Diagonal => Distance::Finite { straight, diagonal: diagonal + 1 },
            },
            Distance::Infinite => Distance::Infinite,
        }
    }

    /// Decides `lt`.
    pub fn less_than(&self, other: &Distance) -> (b: bool)
        ensures
            b == self.lt(*other),
    {
        match (*self, *other) {
            (
                Distance::Finite { straight: s1, diagonal: d1 },
                Distance::Finite { straight: s2, diagonal: d2 },
            ) => {
                proof {
                    reveal(below_root_two);
                    lemma_square_of_opposite(s1 - s2);
                    lemma_square_of_opposite(d2 - d1);
                }
                if s1 < s2 {
                    d1 <= d2 || square_above_double(s2 - s1, d1 - d2)
                } else {
                    d1 < d2 && square_below_double(s1 - s2, d2 - d1)
                }
            },
            (Distance::Finite { .. }, Distance::Infinite) => true,
            (Distance::Infinite, _) => false,
        }
    }
}

/// `p² < 2·q²`, computed without overflow.
fn square_below_double(p: usize, q: usize) -> (b: bool)
    ensures
        b == (p * p < 2 * (q * q)),
{
    let pp: u128 = square(p);
    let qq: u128 = square(q);
    pp / 2 < qq
}

/// `p² > 2·q²`, computed without overflow.
fn square_above_double(p: usize, q: usize) -> (b: bool)
    ensures
        b == (p * p > 2 * (q * q)),
{
    let pp: u128 = square(p);
    let qq: u128 = square(q);
    pp > 0 && (pp - 1) / 2 >= qq
}

fn square(p: usize) -> (pp: u128)
    ensures
        pp == p * p,
{
    let wide: u128 = p as u128;
    assert(wide * wide <= 0xffff_ffff_ffff_ffff * 0xffff_ffff_ffff_ffff) by (nonlinear_arith)
        requires
            wide <= 0xffff_ffff_ffff_ffff,
    ;
    wide * wide
}

} // verus!
