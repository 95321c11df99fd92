//! Distance-to-zero scores and score ranges, seen from the side to move.

use vstd::prelude::*;

verus! {

/// Lowest score: the side to move is checkmated.
pub open spec fn score_floor() -> int {
    -100
}

/// Highest score a position gets directly: a win with a zeroing move at hand.
pub open spec fn score_ceiling() -> int {
    99
}

/// One halfmove further from the zeroing move: the score moves one step toward zero.
pub open spec fn step_toward_zero(v: int) -> int {
    if v > 0 {
        v - 1
    } else if v < 0 {
        v + 1
    } else {
        0
    }
}

/// A range `(min, max)` is illegal when its lower bound is a win and its upper bound a loss.
pub open spec fn range_is_illegal(r: (int, int)) -> bool {
    r.0 > 0 && r.1 < 0
}

/// A range is certain when both bounds agree, or when it is the illegal marker.
pub open spec fn range_is_certain(r: (int, int)) -> bool {
    r.0 == r.1 || range_is_illegal(r)
}

/// The same range seen from the other side: bounds swapped and negated.
pub open spec fn range_flip(r: (int, int)) -> (int, int) {
    (-r.1, -r.0)
}

/// Both bounds one halfmove further from zeroing; an illegal range stays as it is.
pub open spec fn range_add_half_move(r: (int, int)) -> (int, int) {
    if range_is_illegal(r) {
        r
    } else {
        (step_toward_zero(r.0), step_toward_zero(r.1))
    }
}

/// Bound-wise maximum of two ranges.
pub open spec fn range_max(a: (int, int), b: (int, int)) -> (int, int) {
    (if a.0 >= b.0 { a.0 } else { b.0 }, if a.1 >= b.1 { a.1 } else { b.1 })
}

/// Every bound a score can take: `-100 ..= 100` (a flipped checkmate reaches `100`).
pub open spec fn score_in_bounds(v: int) -> bool {
    -100 <= v <= 100
}

/// A DTZ score from the perspective of the side to move.
///
/// `+99` is a win with a zeroing move immediately available, `0` a draw,
/// `-100` means the side to move is checkmated.
#[derive(Debug, Clone, Copy, PartialEq, Eq, Structural)]
pub struct DtzScore(i8);

impl View for DtzScore {
    type V = int;

    closed spec fn view(&self) -> int {
        self.0 as int
    }
}

impl DtzScore {
    #[verifier::type_invariant]
    spec fn in_bounds(self) -> bool {
        -100 <= self.0 <= 100
    }

    /// Validity of a score as a mathematical value.
    pub closed spec fn wf(self) -> bool {
        -100 <= self.0 <= 100
    }

    /// Two scores with the same value are the same score.
    pub proof fn lemma_view_injective(a: DtzScore, b: DtzScore)
        ensures
            a@ == b@ <==> a == b,
    {
    }

    /// A valid score lies within the bounds.
    pub proof fn lemma_wf_bounds(self)
        ensures
            self.wf() <==> score_in_bounds(self@),
    {
    }

    pub fn immediate_win() -> (r: Self)
        ensures
            r@ == score_ceiling(),
            r.wf(),
    {
        Self(99)
    }

    pub fn immediate_loss() -> (r: Self)
        ensures
            r@ == score_floor(),
            r.wf(),
    {
        Self(-100)
    }

    pub fn draw() -> (r: Self)
        ensures
            r@ == 0,
            r.wf(),
    {
        Self(0)
    }

    pub fn is_draw(&self) -> (r: bool)
        ensures
            r == (self@ == 0),
    {
        self.0 == 0
    }

    pub fn is_win(&self) -> (r: bool)
        ensures
            r == (self@ > 0),
    {
        self.0 > 0
    }

    pub fn is_loss(&self) -> (r: bool)
        ensures
            r == (self@ < 0),
    {
        self.0 < 0
    }

    pub fn add_half_move(&self) -> (r: Self)
        ensures
            r@ == step_toward_zero(self@),
            r.wf(),
    {
        proof {
            use_type_invariant(self);
        }
        if self.0 > 0 {
            Self(self.0 - 1)
        } else if self.0 < 0 {
            Self(self.0 + 1)
        } else {
            *self
        }
    }

    /// The score seen from the other side.
    pub fn negated(&self) -> (r: Self)
        ensures
            r@ == -self@,
            r.wf(),
    {
        proof {
            use_type_invariant(self);
        }
        Self(-self.0)
    }

    /// The score moved by `delta`, or `None` when that leaves the bounds.
    pub fn checked_offset(&self, delta: i8) -> (r: Option<Self>)
        ensures
            r.is_some() <==> score_in_bounds(self@ + delta),
            r.is_some() ==> r.unwrap()@ == self@ + delta && r.unwrap().wf(),
    {
        proof {
            use_type_invariant(self);
        }
        let wide: i16 = self.0 as i16 + delta as i16;
        if -100 <= wide && wide <= 100 {
            Some(Self(wide as i8))
        } else {
            None
        }
    }

    /// The larger of two scores.
    pub fn max(&self, other: &Self) -> (r: Self)
        ensures
            r@ == (if self@ >= other@ { self@ } else { other@ }),
            r == *self || r == *other,
    {
        if self.0 >= other.0 {
            *self
        } else {
            *other
        }
    }

    /// The raw value.
    pub fn value(&self) -> (r: i8)
        ensures
            r as int == self@,
            score_in_bounds(r as int),
    {
        proof {
            use_type_invariant(self);
        }
        self.0
    }
}

/// A range of DTZ scores: the best the side to move can be sure of, and the
/// best it can still hope for.
#[derive(Debug, Clone, Copy, PartialEq, Eq, Structural)]
pub struct DtzScoreRange {
    min: DtzScore,
    max: DtzScore,
}

impl View for DtzScoreRange {
    type V = (int, int);

    closed spec fn view(&self) -> (int, int) {
        (self.min@, self.max@)
    }
}

impl DtzScoreRange {
    /// Validity of a range as a mathematical value: both bounds within `-100 ..= 100`.
    pub closed spec fn wf(self) -> bool {
        self.min.wf() && self.max.wf()
    }

    /// Two ranges with the same bounds are the same range.
    pub proof fn lemma_view_injective(a: DtzScoreRange, b: DtzScoreRange)
        ensures
            a@ == b@ <==> a == b,
    {
        DtzScore::lemma_view_injective(a.min, b.min);
        DtzScore::lemma_view_injective(a.max, b.max);
    }

    /// A valid range has both bounds within `-100 ..= 100`.
    pub proof fn lemma_wf_bounds(self)
        ensures
            self.wf() <==> score_in_bounds(self@.0) && score_in_bounds(self@.1),
    {
        self.min.lemma_wf_bounds();
        self.max.lemma_wf_bounds();
    }

    /// Nothing known: anything between being mated and winning at once.
    pub fn unknown() -> (r: Self)
        ensures
            r@ == (score_floor(), score_ceiling()),
            r.wf(),
    {
        Self { min: DtzScore::immediate_loss(), max: DtzScore::immediate_win() }
    }

    /// The marker for an index that is no legal position: `min > max`.
    pub fn illegal() -> (r: Self)
        ensures
            r@ == (score_ceiling(), score_floor()),
            r.wf(),
    {
        Self { min: DtzScore::immediate_win(), max: DtzScore::immediate_loss() }
    }

    /// A checkmate is on the board. The side to move is checkmated.
    pub fn checkmate() -> (r: Self)
        ensures
            r@ == (score_floor(), score_floor()),
            r.wf(),
    {
        Self { min: DtzScore::immediate_loss(), max: DtzScore::immediate_loss() }
    }

    /// Forced draw.
    pub fn draw() -> (r: Self)
        ensures
            r@ == (0int, 0int),
            r.wf(),
    {
        Self { min: DtzScore::draw(), max: DtzScore::draw() }
    }

    /// A range with the given bounds, or `None` when one lies outside `-100 ..= 100`.
    pub fn from_bounds(min: i8, max: i8) -> (r: Option<Self>)
        ensures
            r.is_some() <==> score_in_bounds(min as int) && score_in_bounds(max as int),
            r.is_some() ==> r.unwrap()@ == (min as int, max as int) && r.unwrap().wf(),
    {
        if -100 <= min && min <= 100 && -100 <= max && max <= 100 {
            Some(Self { min: DtzScore(min), max: DtzScore(max) })
        } else {
            None
        }
    }

    pub fn is_certain(&self) -> (r: bool)
        ensures
            r == range_is_certain(self@),
    {
        self.min.0 == self.max.0 || self.is_illegal()
    }

    pub fn is_uncertain(&self) -> (r: bool)
        ensures
            r == (self@.0 != self@.1),
    {
        self.min.0 != self.max.0
    }

    pub fn is_illegal(&self) -> (r: bool)
        ensures
            r == range_is_illegal(self@),
    {
        self.min.is_win() && self.max.is_loss()
    }

    /// Flips the score range: from the perspective of the side to move to the
    /// perspective of the other side.
    pub fn flip(&self) -> (r: Self)
        ensures
            r@ == range_flip(self@),
            r.wf(),
    {
        Self { min: self.max.negated(), max: self.min.negated() }
    }

    pub fn add_half_move(&self) -> (r: Self)
        ensures
            r@ == range_add_half_move(self@),
            r.wf(),
    {
        if self.is_illegal() {
            proof {
                use_type_invariant(self.min);
                use_type_invariant(self.max);
            }
            return *self;
        }
        Self { min: self.min.add_half_move(), max: self.max.add_half_move() }
    }

    /// Returns the bound-wise maximum of the two scores.
    pub fn max(&self, other: &Self) -> (r: Self)
        ensures
            r@ == range_max(self@, other@),
            r.wf(),
    {
        proof {
            use_type_invariant(self.min);
            use_type_invariant(self.max);
            use_type_invariant(other.min);
            use_type_invariant(other.max);
        }
        let min = self.min.max(&other.min);
        let max = self.max.max(&other.max);
        Self { min, max }
    }

    /// The lower bound.
    pub fn min_score(&self) -> (r: DtzScore)
        ensures
            r@ == self@.0,
    {
        self.min
    }

    /// The upper bound.
    pub fn max_score(&self) -> (r: DtzScore)
        ensures
            r@ == self@.1,
    {
        self.max
    }
}

/// Flipping a range twice gives the range back.
pub proof fn lemma_flip_involution(r: (int, int))
    ensures
        range_flip(range_flip(r)) == r,
{
}

/// A further halfmove never turns a legal range into the illegal marker, nor
/// the marker into a legal range.
pub proof fn lemma_add_half_move_keeps_legality(r: (int, int))
    ensures
        range_is_illegal(range_add_half_move(r)) == range_is_illegal(r),
{
}

/// The bound-wise maximum does not depend on the order of its arguments.
pub proof fn lemma_max_commutative(a: (int, int), b: (int, int))
    ensures
        range_max(a, b) == range_max(b, a),
{
}

/// The bound-wise maximum may be taken in any grouping.
pub proof fn lemma_max_associative(a: (int, int), b: (int, int), c: (int, int))
    ensures
        range_max(range_max(a, b), c) == range_max(a, range_max(b, c)),
{
}

} // verus!
