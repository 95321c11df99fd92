//! The seven win/draw/loss values that a table stores.

use crate::score::{range_is_illegal, score_ceiling, score_floor, DtzScoreRange};
use vstd::prelude::*;
use vstd::std_specs::convert::FromSpecImpl;

verus! {

/// Range of win/draw/loss values stored in a table.
///
/// The codes `0..=6` of the variants, in the order written here, are the
/// initial alphabet of the table compression.
#[derive(Debug, Clone, Copy, PartialEq, Eq, Structural)]
pub enum WdlScoreRange {
    /// Position that can be a win, draw or loss.
    Unknown,
    WinOrDraw,
    DrawOrLoss,
    Win,
    Draw,
    Loss,
    /// The index is no legal position.
    IllegalPosition,
}

/// Number of values: the size of the base alphabet.
pub const WDL_SYMBOLS: u8 = 7;

/// The code of a value.
pub open spec fn wdl_code(v: WdlScoreRange) -> int {
    match v {
        WdlScoreRange::Unknown => 0,
        WdlScoreRange::WinOrDraw => 1,
        WdlScoreRange::DrawOrLoss => 2,
        WdlScoreRange::Win => 3,
        WdlScoreRange::Draw => 4,
        WdlScoreRange::Loss => 5,
        WdlScoreRange::IllegalPosition => 6,
    }
}

/// The value with a given code; codes above `6` stand for no value.
pub open spec fn wdl_from_code(c: int) -> Option<WdlScoreRange> {
    if c == 0 {
        Some(WdlScoreRange::Unknown)
    } else if c == 1 {
        Some(WdlScoreRange::WinOrDraw)
    } else if c == 2 {
        Some(WdlScoreRange::DrawOrLoss)
    } else if c == 3 {
        Some(WdlScoreRange::Win)
    } else if c == 4 {
        Some(WdlScoreRange::Draw)
    } else if c == 5 {
        Some(WdlScoreRange::Loss)
    } else if c == 6 {
        Some(WdlScoreRange::IllegalPosition)
    } else {
        None
    }
}

/// The sign of an integer: `-1`, `0` or `1`.
pub open spec fn sign(v: int) -> int {
    if v > 0 {
        1
    } else if v < 0 {
        -1
    } else {
        0
    }
}

/// Projection of a score range `(min, max)` onto a win/draw/loss value, by
/// the signs of the two bounds. A winning lower bound with a drawn upper
/// bound, and a drawn lower bound with a losing upper bound, are no ranges
/// at all and project to nothing.
pub open spec fn wdl_of_range(r: (int, int)) -> Option<WdlScoreRange> {
    let lo = sign(r.0);
    let hi = sign(r.1);
    if lo == 1 && hi == -1 {
        Some(WdlScoreRange::IllegalPosition)
    } else if lo == 1 && hi == 1 {
        Some(WdlScoreRange::Win)
    } else if lo == 1 {
        None
    } else if lo == 0 && hi == 1 {
        Some(WdlScoreRange::WinOrDraw)
    } else if lo == 0 && hi == 0 {
        Some(WdlScoreRange::Draw)
    } else if lo == 0 {
        None
    } else if hi == 1 {
        Some(WdlScoreRange::Unknown)
    } else if hi == 0 {
        Some(WdlScoreRange::DrawOrLoss)
    } else {
        Some(WdlScoreRange::Loss)
    }
}

/// The widest score range that a win/draw/loss value stands for.
pub open spec fn range_of_wdl(v: WdlScoreRange) -> (int, int) {
    match v {
        WdlScoreRange::Unknown => (score_floor(), score_ceiling()),
        WdlScoreRange::WinOrDraw => (0, score_ceiling()),
        WdlScoreRange::DrawOrLoss => (score_floor(), 0),
        WdlScoreRange::Win => (score_ceiling(), score_ceiling()),
        WdlScoreRange::Draw => (0, 0),
        WdlScoreRange::Loss => (score_floor(), score_floor()),
        WdlScoreRange::IllegalPosition => (score_ceiling(), score_floor()),
    }
}

impl WdlScoreRange {
    /// The code `0..=6` under which the value is stored.
    pub fn code(self) -> (r: u8)
        ensures
            r as int == wdl_code(self),
            r < WDL_SYMBOLS,
    {
        match self {
            WdlScoreRange::Unknown => 0,
            WdlScoreRange::WinOrDraw => 1,
            WdlScoreRange::DrawOrLoss => 2,
            WdlScoreRange::Win => 3,
            WdlScoreRange::Draw => 4,
            WdlScoreRange::Loss => 5,
            WdlScoreRange::IllegalPosition => 6,
        }
    }

    /// The value stored under `code`, or `None` for a code above `6`.
    pub fn from_code(code: u8) -> (r: Option<Self>)
        ensures
            r == wdl_from_code(code as int),
            r.is_some() <==> code < WDL_SYMBOLS,
            r.is_some() ==> wdl_code(r.unwrap()) == code,
    {
        match code {
            0 => Some(WdlScoreRange::Unknown),
            1 => Some(WdlScoreRange::WinOrDraw),
            2 => Some(WdlScoreRange::DrawOrLoss),
            3 => Some(WdlScoreRange::Win),
            4 => Some(WdlScoreRange::Draw),
            5 => Some(WdlScoreRange::Loss),
            6 => Some(WdlScoreRange::IllegalPosition),
            _ => None,
        }
    }

    /// Whether the outcome is settled: a win, a draw or a loss.
    pub fn is_certain(self) -> (r: bool)
        ensures
            r == (self == WdlScoreRange::Win || self == WdlScoreRange::Draw || self
                == WdlScoreRange::Loss),
    {
        match self {
            WdlScoreRange::Win | WdlScoreRange::Draw | WdlScoreRange::Loss => true,
            _ => false,
        }
    }

    /// Whether more than one outcome is still possible.
    pub fn is_uncertain(self) -> (r: bool)
        ensures
            r == (self == WdlScoreRange::Unknown || self == WdlScoreRange::WinOrDraw || self
                == WdlScoreRange::DrawOrLoss),
    {
        match self {
            WdlScoreRange::Unknown | WdlScoreRange::WinOrDraw | WdlScoreRange::DrawOrLoss => true,
            _ => false,
        }
    }

    /// Projects a score range onto its win/draw/loss value, or `None` where
    /// the bounds contradict each other.
    pub fn try_from_dtz(score: DtzScoreRange) -> (r: Option<Self>)
        ensures
            r == wdl_of_range(score@),
    {
        let lo = score.min_score();
        let hi = score.max_score();
        if lo.is_win() {
            if hi.is_loss() {
                Some(WdlScoreRange::IllegalPosition)
            } else if hi.is_win() {
                Some(WdlScoreRange::Win)
            } else {
                None
            }
        } else if lo.is_draw() {
            if hi.is_win() {
                Some(WdlScoreRange::WinOrDraw)
            } else if hi.is_draw() {
                Some(WdlScoreRange::Draw)
            } else {
                None
            }
        } else {
            if hi.is_win() {
                Some(WdlScoreRange::Unknown)
            } else if hi.is_draw() {
                Some(WdlScoreRange::DrawOrLoss)
            } else {
                Some(WdlScoreRange::Loss)
            }
        }
    }

    /// Projects a score range whose bounds do not contradict each other.
    pub fn from_dtz(score: DtzScoreRange) -> (r: Self)
        requires
            wdl_of_range(score@).is_some(),
        ensures
            Some(r) == wdl_of_range(score@),
    {
        match Self::try_from_dtz(score) {
            Some(v) => v,
            None => WdlScoreRange::Unknown,
        }
    }

    /// The widest score range that the value stands for.
    pub fn to_dtz(self) -> (r: DtzScoreRange)
        ensures
            r@ == range_of_wdl(self),
            r.wf(),
    {
        let made = match self {
            WdlScoreRange::Unknown => DtzScoreRange::from_bounds(-100, 99),
            WdlScoreRange::WinOrDraw => DtzScoreRange::from_bounds(0, 99),
            WdlScoreRange::DrawOrLoss => DtzScoreRange::from_bounds(-100, 0),
            WdlScoreRange::Win => DtzScoreRange::from_bounds(99, 99),
            WdlScoreRange::Draw => DtzScoreRange::from_bounds(0, 0),
            WdlScoreRange::Loss => DtzScoreRange::from_bounds(-100, -100),
            WdlScoreRange::IllegalPosition => DtzScoreRange::from_bounds(99, -100),
        };
        match made {
            Some(r) => r,
            None => DtzScoreRange::unknown(),
        }
    }
}

impl From<WdlScoreRange> for u8 {
    fn from(value: WdlScoreRange) -> (r: u8) {
        value.code()
    }
}

impl FromSpecImpl<WdlScoreRange> for u8 {
    open spec fn obeys_from_spec() -> bool {
        true
    }

    open spec fn from_spec(value: WdlScoreRange) -> u8 {
        wdl_code(value) as u8
    }
}

/// How a game ends for the side to move, as a finished table of another
/// maker gives it.
#[derive(Debug, Clone, Copy, PartialEq, Eq, Structural)]
pub enum SimpleWdl {
    Win,
    Draw,
    Loss,
}

/// Whether a position with a score within `range` can end as `outcome`
/// says: a win needs a score above zero, a draw the score zero, a loss a
/// score below zero. The range of no legal position holds no score.
pub open spec fn outcome_within(outcome: SimpleWdl, range: (int, int)) -> bool {
    range.0 <= range.1 && match outcome {
        SimpleWdl::Win => range.1 > 0,
        SimpleWdl::Draw => range.0 <= 0 <= range.1,
        SimpleWdl::Loss => range.0 < 0,
    }
}

/// Whether the stored value `wdl` leaves room for the outcome `outcome`.
pub fn heisenbase_allows(wdl: WdlScoreRange, outcome: SimpleWdl) -> (r: bool)
    ensures
        r == outcome_within(outcome, range_of_wdl(wdl)),
{
    match wdl {
        WdlScoreRange::Win => outcome == SimpleWdl::Win,
        WdlScoreRange::Draw => outcome == SimpleWdl::Draw,
        WdlScoreRange::Loss => outcome == SimpleWdl::Loss,
        WdlScoreRange::WinOrDraw => outcome == SimpleWdl::Win || outcome == SimpleWdl::Draw,
        WdlScoreRange::DrawOrLoss => outcome == SimpleWdl::Draw || outcome == SimpleWdl::Loss,
        WdlScoreRange::Unknown => true,
        WdlScoreRange::IllegalPosition => false,
    }
}

/// An outcome lies within a range just when some score of its sign does.
pub proof fn lemma_outcome_within(outcome: SimpleWdl, range: (int, int))
    ensures
        outcome_within(outcome, range) <==> exists|v: int|
            range.0 <= v <= range.1 && #[trigger] sign(v) == match outcome {
                SimpleWdl::Win => 1int,
                SimpleWdl::Draw => 0int,
                SimpleWdl::Loss => -1int,
            },
{
    if outcome_within(outcome, range) {
        let v = match outcome {
            SimpleWdl::Win => range.1,
            SimpleWdl::Draw => 0int,
            SimpleWdl::Loss => range.0,
        };
        assert(range.0 <= v <= range.1 && sign(v) == match outcome {
            SimpleWdl::Win => 1int,
            SimpleWdl::Draw => 0int,
            SimpleWdl::Loss => -1int,
        });
    }
}

/// The code of a value leads back to the value.
pub proof fn lemma_code_round_trip(v: WdlScoreRange)
    ensures
        0 <= wdl_code(v) < 7,
        wdl_from_code(wdl_code(v)) == Some(v),
{
}

/// A value's range projects back onto the value.
pub proof fn lemma_range_round_trip(v: WdlScoreRange)
    ensures
        wdl_of_range(range_of_wdl(v)) == Some(v),
        range_is_illegal(range_of_wdl(v)) <==> v == WdlScoreRange::IllegalPosition,
{
}

} // verus!
