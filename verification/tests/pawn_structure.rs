use heisenbase::material_key::{Color, PawnStructure};
use shakmaty::{Bitboard, Board, ByColor, ByRole, Square};

fn pawn_board(ps: &PawnStructure) -> Board {
    let by_role = ByRole {
        pawn: Bitboard(ps.white | ps.black),
        knight: Bitboard(0),
        bishop: Bitboard(0),
        rook: Bitboard(0),
        queen: Bitboard(0),
        king: Bitboard(0),
    };
    let by_color = ByColor {
        white: Bitboard(ps.white),
        black: Bitboard(ps.black),
    };
    Board::try_from_bitboards(by_role, by_color).unwrap()
}

fn pawn_diagram(ps: &PawnStructure) -> String {
    format!("{:?}", pawn_board(ps))
}

fn pawn_diagrams(children: &[PawnStructure]) -> Vec<String> {
    children.iter().map(pawn_diagram).collect()
}

fn rows(lines: [&str; 8]) -> String {
    let mut out = String::new();
    for line in lines {
        out.push_str(line);
        out.push('\n');
    }
    out
}

fn squares(list: &[Square]) -> u64 {
    let mut bb = Bitboard::EMPTY;
    for sq in list {
        bb |= Bitboard::from_square(*sq);
    }
    bb.0
}

#[test]
fn empty_pawn_structure_generates_no_moves() {
    let parent = PawnStructure::new(squares(&[]), squares(&[]));
    assert_eq!(
        pawn_diagram(&parent),
        rows([
            ". . . . . . . .",
            ". . . . . . . .",
            ". . . . . . . .",
            ". . . . . . . .",
            ". . . . . . . .",
            ". . . . . . . .",
            ". . . . . . . .",
            ". . . . . . . .",
        ])
    );
    let children = parent.child_pawn_structures_no_piece_change();
    let expected: Vec<String> = Vec::new();
    assert_eq!(pawn_diagrams(&children), expected);
}

#[test]
fn child_pawn_structures_generates_moves_for_both_colors() {
    let parent = PawnStructure::new(squares(&[Square::E2]), squares(&[Square::E7]));
    assert_eq!(
        pawn_diagram(&parent),
        rows([
            ". . . . . . . .",
            ". . . . p . . .",
            ". . . . . . . .",
            ". . . . . . . .",
            ". . . . . . . .",
            ". . . . . . . .",
            ". . . . P . . .",
            ". . . . . . . .",
        ])
    );
    let children = parent.child_pawn_structures_no_piece_change();
    let expected: Vec<String> = vec![
        rows([
            ". . . . . . . .",
            ". . . . p . . .",
            ". . . . . . . .",
            ". . . . . . . .",
            ". . . . . . . .",
            ". . . . . . . .",
            ". . . . . . . .",
            ". . . . . . . .",
        ]),
        rows([
            ". . . . . . . .",
            ". . . . . . . .",
            ". . . . . . . .",
            ". . . . . . . .",
            ". . . . . . . .",
            ". . . . . . . .",
            ". . . . P . . .",
            ". . . . . . . .",
        ]),
        rows([
            ". . . . . . . .",
            ". . . . p . . .",
            ". . . . . . . .",
            ". . . . . . . .",
            ". . . . . . . .",
            ". . . . P . . .",
            ". . . . . . . .",
            ". . . . . . . .",
        ]),
        rows([
            ". . . . . . . .",
            ". . . . p . . .",
            ". . . . . . . .",
            ". . . . . . . .",
            ". . . . P . . .",
            ". . . . . . . .",
            ". . . . . . . .",
            ". . . . . . . .",
        ]),
        rows([
            ". . . . . . . .",
            ". . . . . . . .",
            ". . . . p . . .",
            ". . . . . . . .",
            ". . . . . . . .",
            ". . . . . . . .",
            ". . . . P . . .",
            ". . . . . . . .",
        ]),
        rows([
            ". . . . . . . .",
            ". . . . . . . .",
            ". . . . . . . .",
            ". . . . p . . .",
            ". . . . . . . .",
            ". . . . . . . .",
            ". . . . P . . .",
            ". . . . . . . .",
        ]),
    ];
    assert_eq!(pawn_diagrams(&children), expected);
}

#[test]
fn child_pawn_structures_blocked_by_opponent_generates_no_moves() {
    let parent = PawnStructure::new(squares(&[Square::E2]), squares(&[Square::E3]));
    assert_eq!(
        pawn_diagram(&parent),
        rows([
            ". . . . . . . .",
            ". . . . . . . .",
            ". . . . . . . .",
            ". . . . . . . .",
            ". . . . . . . .",
            ". . . . p . . .",
            ". . . . P . . .",
            ". . . . . . . .",
        ])
    );
    let children = parent.child_pawn_structures_no_piece_change();
    let expected: Vec<String> = vec![
        rows([
            ". . . . . . . .",
            ". . . . . . . .",
            ". . . . . . . .",
            ". . . . . . . .",
            ". . . . . . . .",
            ". . . . p . . .",
            ". . . . . . . .",
            ". . . . . . . .",
        ]),
        rows([
            ". . . . . . . .",
            ". . . . . . . .",
            ". . . . . . . .",
            ". . . . . . . .",
            ". . . . . . . .",
            ". . . . . . . .",
            ". . . . P . . .",
            ". . . . . . . .",
        ]),
    ];
    assert_eq!(pawn_diagrams(&children), expected);
}

#[test]
fn child_pawn_structures_blocked_double_step_still_allows_single_step() {
    let parent = PawnStructure::new(squares(&[Square::E2]), squares(&[Square::E4]));
    assert_eq!(
        pawn_diagram(&parent),
        rows([
            ". . . . . . . .",
            ". . . . . . . .",
            ". . . . . . . .",
            ". . . . . . . .",
            ". . . . p . . .",
            ". . . . . . . .",
            ". . . . P . . .",
            ". . . . . . . .",
        ])
    );
    let children = parent.child_pawn_structures_no_piece_change();
    let expected: Vec<String> = vec![
        rows([
            ". . . . . . . .",
            ". . . . . . . .",
            ". . . . . . . .",
            ". . . . . . . .",
            ". . . . p . . .",
            ". . . . . . . .",
            ". . . . . . . .",
            ". . . . . . . .",
        ]),
        rows([
            ". . . . . . . .",
            ". . . . . . . .",
            ". . . . . . . .",
            ". . . . . . . .",
            ". . . . . . . .",
            ". . . . . . . .",
            ". . . . P . . .",
            ". . . . . . . .",
        ]),
        rows([
            ". . . . . . . .",
            ". . . . . . . .",
            ". . . . . . . .",
            ". . . . . . . .",
            ". . . . p . . .",
            ". . . . P . . .",
            ". . . . . . . .",
            ". . . . . . . .",
        ]),
        rows([
            ". . . . . . . .",
            ". . . . . . . .",
            ". . . . . . . .",
            ". . . . . . . .",
            ". . . . . . . .",
            ". . . . p . . .",
            ". . . . P . . .",
            ". . . . . . . .",
        ]),
    ];
    assert_eq!(pawn_diagrams(&children), expected);
}

#[test]
fn child_pawn_structures_includes_pawn_captures() {
    let parent = PawnStructure::new(squares(&[Square::E4]), squares(&[Square::D5]));
    assert_eq!(
        pawn_diagram(&parent),
        rows([
            ". . . . . . . .",
            ". . . . . . . .",
            ". . . . . . . .",
            ". . . p . . . .",
            ". . . . P . . .",
            ". . . . . . . .",
            ". . . . . . . .",
            ". . . . . . . .",
        ])
    );
    let children = parent.child_pawn_structures_no_piece_change();
    let expected: Vec<String> = vec![
        rows([
            ". . . . . . . .",
            ". . . . . . . .",
            ". . . . . . . .",
            ". . . p . . . .",
            ". . . . . . . .",
            ". . . . . . . .",
            ". . . . . . . .",
            ". . . . . . . .",
        ]),
        rows([
            ". . . . . . . .",
            ". . . . . . . .",
            ". . . . . . . .",
            ". . . . . . . .",
            ". . . . P . . .",
            ". . . . . . . .",
            ". . . . . . . .",
            ". . . . . . . .",
        ]),
        rows([
            ". . . . . . . .",
            ". . . . . . . .",
            ". . . . . . . .",
            ". . . p P . . .",
            ". . . . . . . .",
            ". . . . . . . .",
            ". . . . . . . .",
            ". . . . . . . .",
        ]),
        rows([
            ". . . . . . . .",
            ". . . . . . . .",
            ". . . . . . . .",
            ". . . P . . . .",
            ". . . . . . . .",
            ". . . . . . . .",
            ". . . . . . . .",
            ". . . . . . . .",
        ]),
        rows([
            ". . . . . . . .",
            ". . . . . . . .",
            ". . . . . . . .",
            ". . . . . . . .",
            ". . . p P . . .",
            ". . . . . . . .",
            ". . . . . . . .",
            ". . . . . . . .",
        ]),
        rows([
            ". . . . . . . .",
            ". . . . . . . .",
            ". . . . . . . .",
            ". . . . . . . .",
            ". . . . p . . .",
            ". . . . . . . .",
            ". . . . . . . .",
            ". . . . . . . .",
        ]),
    ];
    assert_eq!(pawn_diagrams(&children), expected);
}

#[test]
fn child_pawn_structures_seventh_rank_generates_no_moves() {
    let parent = PawnStructure::new(squares(&[Square::A7]), squares(&[Square::H2]));
    assert_eq!(
        pawn_diagram(&parent),
        rows([
            ". . . . . . . .",
            "P . . . . . . .",
            ". . . . . . . .",
            ". . . . . . . .",
            ". . . . . . . .",
            ". . . . . . . .",
            ". . . . . . . p",
            ". . . . . . . .",
        ])
    );
    let children = parent.child_pawn_structures_no_piece_change();
    let expected: Vec<String> = vec![
        rows([
            ". . . . . . . .",
            "P . . . . . . .",
            ". . . . . . . .",
            ". . . . . . . .",
            ". . . . . . . .",
            ". . . . . . . .",
            ". . . . . . . .",
            ". . . . . . . .",
        ]),
        rows([
            ". . . . . . . .",
            ". . . . . . . .",
            ". . . . . . . .",
            ". . . . . . . .",
            ". . . . . . . .",
            ". . . . . . . .",
            ". . . . . . . p",
            ". . . . . . . .",
        ]),
    ];
    assert_eq!(pawn_diagrams(&children), expected);
}

#[test]
fn child_pawn_structures_with_piece_captures_generates_moves_for_white() {
    let parent = PawnStructure::new(squares(&[Square::E4]), squares(&[Square::E5]));
    assert_eq!(
        pawn_diagram(&parent),
        rows([
            ". . . . . . . .",
            ". . . . . . . .",
            ". . . . . . . .",
            ". . . . p . . .",
            ". . . . P . . .",
            ". . . . . . . .",
            ". . . . . . . .",
            ". . . . . . . .",
        ])
    );
    let children = parent.child_pawn_structures_with_piece_capture(Color::White);
    let expected: Vec<String> = vec![
        rows([
            ". . . . . . . .",
            ". . . . . . . .",
            ". . . . . . . .",
            ". . . . p P . .",
            ". . . . . . . .",
            ". . . . . . . .",
            ". . . . . . . .",
            ". . . . . . . .",
        ]),
        rows([
            ". . . . . . . .",
            ". . . . . . . .",
            ". . . . . . . .",
            ". . . P p . . .",
            ". . . . . . . .",
            ". . . . . . . .",
            ". . . . . . . .",
            ". . . . . . . .",
        ]),
    ];
    assert_eq!(pawn_diagrams(&children), expected);
}

#[test]
fn child_pawn_structures_with_piece_captures_excludes_capturing_pawns() {
    let parent = PawnStructure::new(squares(&[Square::E4]), squares(&[Square::D5, Square::F5]));
    assert_eq!(
        pawn_diagram(&parent),
        rows([
            ". . . . . . . .",
            ". . . . . . . .",
            ". . . . . . . .",
            ". . . p . p . .",
            ". . . . P . . .",
            ". . . . . . . .",
            ". . . . . . . .",
            ". . . . . . . .",
        ])
    );
    let children = parent.child_pawn_structures_with_piece_capture(Color::White);
    let expected: Vec<String> = Vec::new();
    assert_eq!(pawn_diagrams(&children), expected);
}

#[test]
fn child_pawn_structures_with_piece_captures_generates_moves_for_black() {
    let parent = PawnStructure::new(squares(&[Square::B2]), squares(&[Square::G7]));
    assert_eq!(
        pawn_diagram(&parent),
        rows([
            ". . . . . . . .",
            ". . . . . . p .",
            ". . . . . . . .",
            ". . . . . . . .",
            ". . . . . . . .",
            ". . . . . . . .",
            ". P . . . . . .",
            ". . . . . . . .",
        ])
    );
    let children = parent.child_pawn_structures_with_piece_capture(Color::Black);
    let expected: Vec<String> = vec![
        rows([
            ". . . . . . . .",
            ". p . . . . . .",
            ". . . . . . . .",
            ". . . . . . . .",
            ". . . . . . . .",
            ". . . . . . . P",
            ". . . . . . . .",
            ". . . . . . . .",
        ]),
        rows([
            ". . . . . . . .",
            ". p . . . . . .",
            ". . . . . . . .",
            ". . . . . . . .",
            ". . . . . . . .",
            ". . . . . P . .",
            ". . . . . . . .",
            ". . . . . . . .",
        ]),
    ];
    assert_eq!(pawn_diagrams(&children), expected);
}

#[test]
fn child_pawn_structures_with_promotions_removes_promoting_pawn_for_white() {
    let parent = PawnStructure::new(squares(&[Square::A7]), squares(&[Square::H2]));
    assert_eq!(
        pawn_diagram(&parent),
        rows([
            ". . . . . . . .",
            "P . . . . . . .",
            ". . . . . . . .",
            ". . . . . . . .",
            ". . . . . . . .",
            ". . . . . . . .",
            ". . . . . . . p",
            ". . . . . . . .",
        ])
    );
    let children = parent.child_pawn_structures_with_promotion(Color::White);
    let expected: Vec<String> = vec![
        rows([
            ". . . . . . . .",
            ". . . . . . . .",
            ". . . . . . . .",
            ". . . . . . . .",
            ". . . . . . . .",
            ". . . . . . . .",
            ". . . . . . . p",
            ". . . . . . . .",
        ]),
    ];
    assert_eq!(pawn_diagrams(&children), expected);
}

#[test]
fn child_pawn_structures_with_promotions_from_black_perspective() {
    let parent = PawnStructure::new(squares(&[Square::H7]), squares(&[Square::A2]));
    assert_eq!(
        pawn_diagram(&parent),
        rows([
            ". . . . . . . .",
            ". . . . . . . P",
            ". . . . . . . .",
            ". . . . . . . .",
            ". . . . . . . .",
            ". . . . . . . .",
            "p . . . . . . .",
            ". . . . . . . .",
        ])
    );
    let children = parent.child_pawn_structures_with_promotion(Color::Black);
    let expected: Vec<String> = vec![
        rows([
            ". . . . . . . .",
            ". . . . . . . .",
            ". . . . . . . .",
            ". . . . . . . .",
            ". . . . . . . .",
            ". . . . . . . .",
            ". . . . . . . p",
            ". . . . . . . .",
        ]),
    ];
    assert_eq!(pawn_diagrams(&children), expected);
}

#[test]
fn child_pawn_structures_no_promotion_possible() {
    let parent = PawnStructure::new(squares(&[Square::D3]), squares(&[]));
    assert_eq!(
        pawn_diagram(&parent),
        rows([
            ". . . . . . . .",
            ". . . . . . . .",
            ". . . . . . . .",
            ". . . . . . . .",
            ". . . . . . . .",
            ". . . P . . . .",
            ". . . . . . . .",
            ". . . . . . . .",
        ])
    );
    let children = parent.child_pawn_structures_with_promotion(Color::Black);
    let expected: Vec<String> = Vec::new();
    assert_eq!(pawn_diagrams(&children), expected);
}

#[test]
fn pawn_does_not_step_onto_or_over_its_own_pawn() {
    let parent = PawnStructure::new(squares(&[Square::E2, Square::E3]), squares(&[]));
    let children = parent.child_pawn_structures_no_piece_change();
    let jumped = PawnStructure::new(squares(&[Square::E3, Square::E4]), squares(&[]));
    let merged = PawnStructure::new(squares(&[Square::E3]), squares(&[]));
    assert!(!children.contains(&jumped));
    let only_e3 = children.iter().filter(|c| **c == merged).count();
    // Once, where the pawn on e2 was taken; never by a push onto e3.
    assert_eq!(only_e3, 1);
    let expected = vec![
        PawnStructure::new(squares(&[Square::E3]), squares(&[])),
        PawnStructure::new(squares(&[Square::E2]), squares(&[])),
        PawnStructure::new(squares(&[Square::E2, Square::E4]), squares(&[])),
    ];
    assert_eq!(children, expected);
    for child in children.iter().skip(2) {
        assert_eq!(child.pawn_count(), 2);
    }
}

#[test]
fn double_step_is_blocked_by_an_own_pawn_two_squares_ahead() {
    let parent = PawnStructure::new(squares(&[Square::A2, Square::A4]), squares(&[]));
    let children = parent.child_pawn_structures_no_piece_change();
    let expected = vec![
        PawnStructure::new(squares(&[Square::A4]), squares(&[])),
        PawnStructure::new(squares(&[Square::A2]), squares(&[])),
        PawnStructure::new(squares(&[Square::A3, Square::A4]), squares(&[])),
        PawnStructure::new(squares(&[Square::A2, Square::A5]), squares(&[])),
    ];
    assert_eq!(children, expected);
}

#[test]
fn pawn_takes_no_piece_on_the_square_of_its_own_pawn() {
    let parent = PawnStructure::new(squares(&[Square::D2, Square::E3]), squares(&[]));
    let children = parent.child_pawn_structures_with_piece_capture(Color::White);
    let expected = vec![
        PawnStructure::new(squares(&[Square::D2, Square::F4]), squares(&[])),
        PawnStructure::new(squares(&[Square::C3, Square::E3]), squares(&[])),
        PawnStructure::new(squares(&[Square::D2, Square::D4]), squares(&[])),
    ];
    assert_eq!(children, expected);
    for child in &children {
        assert_eq!(child.pawn_count(), 2);
    }
}
