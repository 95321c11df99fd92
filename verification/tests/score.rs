use heisenbase::score::{DtzScore, DtzScoreRange};
use heisenbase::wdl_score_range::WdlScoreRange;

fn range(min: i8, max: i8) -> DtzScoreRange {
    DtzScoreRange::from_bounds(min, max).unwrap()
}

#[test]
fn distinguished_ranges() {
    assert_eq!(DtzScoreRange::draw(), range(0, 0));
    assert_eq!(DtzScoreRange::checkmate(), range(-100, -100));
    assert_eq!(DtzScoreRange::unknown(), range(-100, 99));
    assert_eq!(DtzScoreRange::illegal(), range(99, -100));
    assert!(DtzScoreRange::illegal().is_illegal());
    assert!(DtzScoreRange::illegal().is_certain());
    assert!(DtzScoreRange::draw().is_certain());
    assert!(!DtzScoreRange::unknown().is_certain());
    assert!(DtzScoreRange::unknown().is_uncertain());
    assert!(!DtzScoreRange::unknown().is_illegal());
    assert_eq!(DtzScoreRange::from_bounds(101, 0), None);
    assert_eq!(DtzScoreRange::from_bounds(0, -101), None);
}

#[test]
fn scores_step_toward_zero() {
    assert_eq!(DtzScore::immediate_win().add_half_move().value(), 98);
    assert_eq!(DtzScore::immediate_loss().add_half_move().value(), -99);
    assert_eq!(DtzScore::draw().add_half_move().value(), 0);
    assert!(DtzScore::immediate_win().is_win());
    assert!(DtzScore::immediate_loss().is_loss());
    assert!(DtzScore::draw().is_draw());
    assert_eq!(DtzScore::immediate_loss().negated().value(), 100);
    assert_eq!(DtzScore::draw().checked_offset(5).map(|s| s.value()), Some(5));
    assert_eq!(DtzScore::immediate_win().checked_offset(2), None);
}

#[test]
fn flip_swaps_and_negates() {
    assert_eq!(range(-100, 99).flip(), range(-99, 100));
    assert_eq!(range(-100, -100).flip(), range(100, 100));
    assert_eq!(range(3, 7).flip(), range(-7, -3));
}

#[test]
fn flipping_twice_gives_the_range_back() {
    for min in -100i8..=100 {
        for max in -100i8..=100 {
            let r = range(min, max);
            assert_eq!(r.flip().flip(), r);
        }
    }
}

#[test]
fn a_half_move_keeps_legality() {
    for min in -100i8..=100 {
        for max in -100i8..=100 {
            let r = range(min, max);
            assert_eq!(r.add_half_move().is_illegal(), r.is_illegal());
        }
    }
    assert_eq!(range(-100, 99).add_half_move(), range(-99, 98));
    assert_eq!(range(0, 1).add_half_move(), range(0, 0));
    assert_eq!(range(99, -100).add_half_move(), range(99, -100));
    assert_eq!(range(1, -1).add_half_move(), range(1, -1));
}

#[test]
fn max_is_commutative_and_associative() {
    let samples = [
        range(-100, 99),
        range(99, -100),
        range(0, 0),
        range(-100, -100),
        range(-5, 20),
        range(7, 7),
        range(-30, 0),
    ];
    for a in samples {
        for b in samples {
            assert_eq!(a.max(&b), b.max(&a));
            for c in samples {
                assert_eq!(a.max(&b).max(&c), a.max(&b.max(&c)));
            }
        }
    }
    assert_eq!(range(-5, 20).max(&range(7, 7)), range(7, 20));
}

#[test]
fn projection_by_signs() {
    assert_eq!(WdlScoreRange::try_from_dtz(range(99, -100)), Some(WdlScoreRange::IllegalPosition));
    assert_eq!(WdlScoreRange::try_from_dtz(range(1, 99)), Some(WdlScoreRange::Win));
    assert_eq!(WdlScoreRange::try_from_dtz(range(1, 0)), None);
    assert_eq!(WdlScoreRange::try_from_dtz(range(0, 99)), Some(WdlScoreRange::WinOrDraw));
    assert_eq!(WdlScoreRange::try_from_dtz(range(0, 0)), Some(WdlScoreRange::Draw));
    assert_eq!(WdlScoreRange::try_from_dtz(range(0, -1)), None);
    assert_eq!(WdlScoreRange::try_from_dtz(range(-100, 99)), Some(WdlScoreRange::Unknown));
    assert_eq!(WdlScoreRange::try_from_dtz(range(-100, 0)), Some(WdlScoreRange::DrawOrLoss));
    assert_eq!(WdlScoreRange::try_from_dtz(range(-100, -1)), Some(WdlScoreRange::Loss));
    assert_eq!(WdlScoreRange::from_dtz(range(5, 6)), WdlScoreRange::Win);
}

#[test]
fn values_as_ranges_and_codes() {
    let all = [
        (WdlScoreRange::Unknown, 0u8, range(-100, 99)),
        (WdlScoreRange::WinOrDraw, 1, range(0, 99)),
        (WdlScoreRange::DrawOrLoss, 2, range(-100, 0)),
        (WdlScoreRange::Win, 3, range(99, 99)),
        (WdlScoreRange::Draw, 4, range(0, 0)),
        (WdlScoreRange::Loss, 5, range(-100, -100)),
        (WdlScoreRange::IllegalPosition, 6, range(99, -100)),
    ];
    for (value, code, as_range) in all {
        assert_eq!(value.code(), code);
        assert_eq!(u8::from(value), code);
        assert_eq!(WdlScoreRange::from_code(code), Some(value));
        assert_eq!(value.to_dtz(), as_range);
        assert_eq!(WdlScoreRange::try_from_dtz(as_range), Some(value));
    }
    assert_eq!(WdlScoreRange::from_code(7), None);
    assert_eq!(WdlScoreRange::from_code(255), None);
}
