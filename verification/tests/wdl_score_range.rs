use heisenbase::wdl_score_range::{heisenbase_allows, SimpleWdl, WdlScoreRange};

#[test]
fn certainty_checks() {
    assert!(WdlScoreRange::Win.is_certain());
    assert!(WdlScoreRange::Draw.is_certain());
    assert!(WdlScoreRange::Loss.is_certain());

    assert!(WdlScoreRange::WinOrDraw.is_uncertain());
    assert!(WdlScoreRange::DrawOrLoss.is_uncertain());
    assert!(WdlScoreRange::Unknown.is_uncertain());
}

#[test]
fn stored_value_allows_the_outcomes_within_its_range() {
    use_outcomes(WdlScoreRange::Win, [true, false, false]);
    use_outcomes(WdlScoreRange::Draw, [false, true, false]);
    use_outcomes(WdlScoreRange::Loss, [false, false, true]);
    use_outcomes(WdlScoreRange::WinOrDraw, [true, true, false]);
    use_outcomes(WdlScoreRange::DrawOrLoss, [false, true, true]);
    use_outcomes(WdlScoreRange::Unknown, [true, true, true]);
    use_outcomes(WdlScoreRange::IllegalPosition, [false, false, false]);
}

fn use_outcomes(wdl: WdlScoreRange, expected: [bool; 3]) {
    let got = [
        heisenbase_allows(wdl, SimpleWdl::Win),
        heisenbase_allows(wdl, SimpleWdl::Draw),
        heisenbase_allows(wdl, SimpleWdl::Loss),
    ];
    assert_eq!(got, expected, "{wdl:?}");
}
