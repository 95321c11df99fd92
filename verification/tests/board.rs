use heisenbase::bitboard::{
    add_square, contains, count_squares, flip_horizontal, flip_vertical, remove_square, squares,
    BACKRANKS, DARK_SQUARES, LIGHT_SQUARES,
};
use heisenbase::material_key::{Color, MaterialKey, PawnStructure};
use heisenbase::position::{Board, BoardRole, ChessMove, Piece};

#[test]
fn sets_of_squares() {
    let mut bb = 0u64;
    bb = add_square(bb, 0);
    bb = add_square(bb, 9);
    bb = add_square(bb, 63);
    assert_eq!(bb, 0x8000_0000_0000_0201);
    assert!(contains(bb, 9));
    assert!(!contains(bb, 10));
    assert_eq!(count_squares(bb), 3);
    assert_eq!(squares(bb), vec![0, 9, 63]);
    assert_eq!(remove_square(bb, 9), 0x8000_0000_0000_0001);
    assert_eq!(remove_square(bb, 10), bb);
    assert_eq!(add_square(bb, 9), bb);
    assert_eq!(count_squares(0), 0);
    assert_eq!(count_squares(u64::MAX), 64);
    assert_eq!(squares(0), Vec::<u8>::new());
}

#[test]
fn mirror_images_of_sets() {
    // a1 and b2
    let bb = 0x0201u64;
    // a8 and b7
    assert_eq!(flip_vertical(bb), 0x0102_0000_0000_0000);
    // h1 and g2
    assert_eq!(flip_horizontal(bb), 0x4080);
    assert_eq!(flip_vertical(flip_vertical(0x1234_5678_9ABC_DEF0)), 0x1234_5678_9ABC_DEF0);
    assert_eq!(flip_horizontal(flip_horizontal(0x1234_5678_9ABC_DEF0)), 0x1234_5678_9ABC_DEF0);
    assert_eq!(flip_vertical(BACKRANKS), BACKRANKS);
    assert_eq!(flip_horizontal(LIGHT_SQUARES), DARK_SQUARES);
    assert_eq!(flip_vertical(LIGHT_SQUARES), DARK_SQUARES);
    assert_eq!(LIGHT_SQUARES | DARK_SQUARES, u64::MAX);
    assert_eq!(LIGHT_SQUARES & DARK_SQUARES, 0);
    assert!(contains(DARK_SQUARES, 0));
    assert!(contains(LIGHT_SQUARES, 1));
}

#[test]
fn pieces_on_a_board() {
    let white_king = Piece {
        color: Color::White,
        role: BoardRole::King,
    };
    let black_rook = Piece {
        color: Color::Black,
        role: BoardRole::Rook,
    };
    let mut board = Board::empty();
    assert_eq!(board.piece_at(4), None);
    board.set_piece_at(4, white_king);
    board.set_piece_at(60, black_rook);
    assert_eq!(board.piece_at(4), Some(white_king));
    assert_eq!(board.piece_at(60), Some(black_rook));
    assert_eq!(board.piece_at(5), None);
    assert_eq!(board.occupied(), (1 << 4) | (1 << 60));
    assert_eq!(board.by_piece(white_king), 1 << 4);
    assert_eq!(board.by_piece(black_rook), 1 << 60);
    assert_eq!(board.by_color(Color::Black), 1 << 60);
    assert_eq!(board.by_role(BoardRole::King), 1 << 4);
    // a piece takes the place of what stood there
    board.set_piece_at(4, black_rook);
    assert_eq!(board.piece_at(4), Some(black_rook));
    assert_eq!(board.kings, 0);
    assert_eq!(board.white, 0);
    board.discard_piece_at(4);
    assert_eq!(board.piece_at(4), None);
    assert_eq!(board.occupied(), 1 << 60);
    board.discard_piece_at(4);
    assert_eq!(board.occupied(), 1 << 60);
}

#[test]
fn pawns_of_a_board() {
    let pawns = PawnStructure::new(1 << 12, 1 << 52);
    let mut board = pawns.to_board();
    assert_eq!(board, Board::from_pawns(&pawns));
    assert_eq!(
        board.piece_at(12),
        Some(Piece {
            color: Color::White,
            role: BoardRole::Pawn
        })
    );
    assert_eq!(
        board.piece_at(52),
        Some(Piece {
            color: Color::Black,
            role: BoardRole::Pawn
        })
    );
    board.set_piece_at(
        0,
        Piece {
            color: Color::White,
            role: BoardRole::King,
        },
    );
    assert_eq!(PawnStructure::from_board(&board), pawns);
    assert_eq!(board.pawn_structure(), pawns);
    assert_eq!(pawns.occupied(), (1 << 12) | (1 << 52));
    assert_eq!(pawns.pawn_count(), 2);
    // e2 and e7 mirror each other
    assert!(pawns.is_symmetric_sides());
    assert!(!pawns.is_symmetric_horizontal());
    assert!(PawnStructure::new((1 << 11) | (1 << 12), 0).is_symmetric_horizontal());
    assert_eq!(pawns.flip_sides(), pawns);
    assert_eq!(pawns.flip_horizontal(), PawnStructure::new(1 << 11, 1 << 51));
    assert_eq!(PawnStructure::checked(1 << 12, 1 << 52), Some(pawns));
    assert_eq!(PawnStructure::checked(1 << 12, 1 << 12), None);
    assert_eq!(PawnStructure::checked(1 << 3, 0), None);
    assert_eq!(PawnStructure::checked(0, 1 << 60), None);
}

#[test]
fn pawns_of_a_key() {
    // the canonical key has the black pawn on the a-file
    let key = MaterialKey::from_string("Ka2vKh7").unwrap();
    assert_eq!(key.to_string(), "Kh2vKa7");
    assert_eq!(key.pawn_bitboard(Color::White), 1 << 15);
    assert_eq!(key.pawn_bitboard(Color::Black), 1 << 48);
    assert_eq!(key.pawns, PawnStructure::new(1 << 15, 1 << 48));
}

#[test]
fn captures_among_moves() {
    let quiet = ChessMove {
        role: BoardRole::Knight,
        from: 1,
        to: 18,
        capture: None,
        promotion: None,
        en_passant: false,
    };
    assert!(!quiet.is_capture());
    assert!(ChessMove {
        capture: Some(BoardRole::Pawn),
        ..quiet
    }
    .is_capture());
    assert!(ChessMove {
        role: BoardRole::Pawn,
        en_passant: true,
        ..quiet
    }
    .is_capture());
}
