use heisenbase::material_key::{Color, HbPieceRole, MaterialKey, PieceCounts};
use heisenbase::position::{Board, Position};
use heisenbase::transform::Transform::{
    FlipHorizontal, FlipVertical, Identity, MirrorAnti, MirrorMain, Rotate180, Rotate270, Rotate90,
};
use heisenbase::transform::{transform_bitboard, transform_square, Transform, TransformSet};
use shakmaty::{fen::Fen, CastlingMode, Chess, Position as _};

fn material_key(s: &str) -> String {
    MaterialKey::from_string(s).unwrap().to_string()
}

fn key_position(chess: &Chess) -> Position {
    let b = chess.board();
    Position {
        board: Board {
            white: b.white().0,
            black: b.black().0,
            pawns: b.pawns().0,
            knights: b.knights().0,
            bishops: b.bishops().0,
            rooks: b.rooks().0,
            queens: b.queens().0,
            kings: b.kings().0,
        },
        turn: if chess.turn() == shakmaty::Color::White {
            Color::White
        } else {
            Color::Black
        },
        ep_square: None,
    }
}

fn child_texts(s: &str) -> Vec<String> {
    MaterialKey::from_string(s)
        .unwrap()
        .child_material_keys()
        .into_iter()
        .map(|k| k.to_string())
        .collect::<Vec<String>>()
}

#[test]
fn material_key_parses_kqvk() {
    assert_eq!(material_key("KQvK"), "KQvK");
}

#[test]
fn mod_parses_kqvk() {
    assert_eq!(material_key("KQvK"), "KQvK");
}

#[test]
fn material_key_parses_light_and_dark_bishops() {
    assert_eq!(material_key("KBdBlvK"), "KBdBlvK");
}

#[test]
fn mod_parses_light_and_dark_bishops() {
    assert_eq!(material_key("KBdBlvK"), "KBdBlvK");
}

#[test]
fn mod_canonicalizes_bishop_colors_in_material_key_1() {
    assert_eq!(material_key("KBlvKBd"), "KBlvKBd");
}

#[test]
fn mod_canonicalizes_bishop_colors_in_material_key_2() {
    assert_eq!(material_key("KBlBlBdvK"), "KBdBlBlvK");
}

#[test]
fn canonicalizes_mirrored_pawn_structure() {
    assert_eq!(material_key("Kf2g2vK"), "Kb2c2vK");
}

#[test]
fn material_key_rejects_invalid_char() {
    assert!(MaterialKey::from_string("KXvK").is_none());
}

#[test]
fn mod_rejects_invalid_char() {
    assert!(MaterialKey::from_string("KXvK").is_none());
}

#[test]
fn material_key_rejects_missing_separator() {
    assert!(MaterialKey::from_string("KQK").is_none());
}

#[test]
fn mod_rejects_missing_separator() {
    assert!(MaterialKey::from_string("KQK").is_none());
}

#[test]
fn rejects_legacy_pawn_token() {
    assert!(MaterialKey::from_string("KPvK").is_none());
}

#[test]
fn rejects_missing_king() {
    assert!(MaterialKey::from_string("QvK").is_none());
}

#[test]
fn rejects_empty_string() {
    assert!(MaterialKey::from_string("").is_none());
}

#[test]
fn rejects_incomplete_pawn_square() {
    assert!(MaterialKey::from_string("KavK").is_none());
}

#[test]
fn rejects_overlapping_pawns() {
    assert!(MaterialKey::from_string("Ke4vKe4").is_none());
}

#[test]
fn child_material_keys_for_ke4vkn() {
    assert_eq!(
        child_texts("Ke4vKN"),
        vec!["KNvK", "Kd4vK", "Kc5vK", "Kd5vKN", "Kd5vK"]
    );
}

#[test]
fn child_material_keys_for_kqvk() {
    assert_eq!(child_texts("KQvK"), vec!["KvK"]);
}

#[test]
fn child_material_keys_for_kbld3vk() {
    assert_eq!(child_texts("KBld3vK"), vec!["KBlvK", "Kd3vK", "KBld4vK"]);
}

#[test]
fn material_key_material_key_from_position() {
    let position = "8/4k3/8/8/8/8/3P4/4K3 w - - 0 1"
        .parse::<Fen>()
        .unwrap()
        .into_position::<Chess>(CastlingMode::Standard)
        .unwrap();
    let key = MaterialKey::from_position(&key_position(&position)).unwrap();
    assert_eq!(key.to_string(), "Kd2vK");
}

#[test]
fn mod_material_key_from_position() {
    let position = "8/4k3/8/8/8/8/3P4/4K3 w - - 0 1"
        .parse::<Fen>()
        .unwrap()
        .into_position::<Chess>(CastlingMode::Standard)
        .unwrap();
    let key = MaterialKey::from_position(&key_position(&position)).unwrap();
    assert_eq!(key.to_string(), "Kd2vK");
}

#[test]
fn non_pawn_piece_count_includes_kings() {
    assert_eq!(
        MaterialKey::from_string("KQvK")
            .unwrap()
            .non_pawn_piece_count(),
        3
    );
}

#[test]
fn allowed_transforms_pawnless_no_bishops() {
    let key = MaterialKey::from_string("KQvK").unwrap();
    assert_eq!(
        key.allowed_transforms(),
        [
            Identity,
            FlipHorizontal,
            FlipVertical,
            Rotate90,
            Rotate270,
            Rotate180,
            MirrorMain,
            MirrorAnti
        ]
        .as_slice()
    );
}

#[test]
fn allowed_transforms_pawnless_with_bishops() {
    let key = MaterialKey::from_string("KBdvK").unwrap();
    assert_eq!(
        key.allowed_transforms(),
        [Identity, Rotate90, Rotate180, Rotate270].as_slice()
    );
}

#[test]
fn allowed_transforms_with_pawns_no_bishops() {
    let key = MaterialKey::from_string("Ke2vK").unwrap();
    assert_eq!(
        key.allowed_transforms(),
        [Identity, FlipHorizontal].as_slice()
    );
}

#[test]
fn allowed_transforms_with_pawns_and_bishops() {
    let key = MaterialKey::from_string("KBdvKe2").unwrap();
    assert_eq!(key.allowed_transforms(), [Identity].as_slice());
}

#[test]
fn parser_rejections() {
    for text in [
        "KvKvK", "KQ", "vK", "Kv", "KvQ", "KKvK", "KBvK", "KBxvK", "Ke1vK", "Ke8vK", "Ka9vK",
        "KivK", "KvK ", " KvK", "KvKx", "Ke4QvK", "kvk", "KvKe4e", "KQvKé",
    ] {
        assert!(MaterialKey::from_string(text).is_none(), "{text}");
    }
    // a pawn may be named twice on one side, but not once on each
    assert_eq!(material_key("Kd4d4vK"), "Kd4vK");
    assert!(MaterialKey::from_string("Kd4vKd4").is_none());
    let crowded = format!("K{}vK", "Q".repeat(253));
    assert!(MaterialKey::from_string(&crowded).is_some());
    let too_crowded = format!("K{}vK", "Q".repeat(254));
    assert!(MaterialKey::from_string(&too_crowded).is_none());
}

#[test]
fn text_order_of_pieces_and_pawns() {
    assert_eq!(material_key("KNBlBdRQh7a2vKNQ"), "KQRNBdBlh2a7vKQN");
    assert_eq!(material_key("KNBdRQa2a7vKNQ"), "KQRNBda2a7vKQN");
    assert_eq!(MaterialKey::from_ascii(b"KQvK").unwrap().to_string(), "KQvK");
    assert!(MaterialKey::from_ascii(&[75, 118, 75, 200]).is_none());
}

#[test]
fn text_round_trip_of_canonical_keys() {
    for text in [
        "KvK", "KQvK", "KBdBlvK", "KNNvKBd", "Kb2c2vK", "KQa2vKRh7", "KBld3vK", "KRRd5vKQNa7b6",
        "KQRNBdBla2h7vKQN",
    ] {
        let key = MaterialKey::from_string(text).unwrap();
        let again = MaterialKey::from_string(&key.to_string()).unwrap();
        assert_eq!(again, key);
        assert_eq!(again.to_string(), key.to_string());
    }
}

#[test]
fn the_richer_side_becomes_white() {
    assert_eq!(material_key("KvKQ"), "KQvK");
    assert_eq!(material_key("KvKe7"), "Kd2vK");
    assert_eq!(material_key("KBdvKBl"), "KBlvKBd");
    assert_eq!(material_key("Ke4vK"), "Kd4vK");
}

#[test]
fn children_never_hold_the_key_itself() {
    for text in [
        "KvK", "KQvK", "KQvKR", "Ka2vK", "Ka7vK", "Ke4vKe5", "Kd4vKe5", "KBdNvKQ", "KQe2vKRe7",
        "Ka7vKBdh2", "Kb2c2vK",
    ] {
        let key = MaterialKey::from_string(text).unwrap();
        let children = key.child_material_keys();
        assert!(!children.contains(&key), "{text}");
        for pair in children.windows(2) {
            assert!(pair[0].precedes(&pair[1]));
        }
    }
}

#[test]
fn promotions_lead_to_every_piece() {
    let children = child_texts("Ka7vK");
    for expected in ["KvK", "KQvK", "KRvK", "KNvK", "KBlvK"] {
        assert!(children.iter().any(|c| c == expected), "{expected}");
    }
    let with_capture = child_texts("Ka7vKR");
    for expected in ["KQvKR", "KQvK", "KRvK", "Ka7vK"] {
        assert!(with_capture.iter().any(|c| c == expected), "{expected}");
    }
}

#[test]
fn counts_and_pieces() {
    let key = MaterialKey::from_string("KQBdBla2vKNh7").unwrap();
    assert_eq!(key.non_pawn_piece_count(), 6);
    assert_eq!(key.total_piece_count(), 8);
    assert!(key.has_pawns());
    assert!(key.has_bishops());
    assert_eq!(key.counts.white.get(HbPieceRole::Queen), 1);
    assert_eq!(key.counts.black.get(HbPieceRole::Knight), 1);
    let roles: Vec<(HbPieceRole, Color)> = key.pieces().iter().map(|p| (p.role, p.color)).collect();
    assert_eq!(
        roles,
        vec![
            (HbPieceRole::King, Color::White),
            (HbPieceRole::Queen, Color::White),
            (HbPieceRole::DarkBishop, Color::White),
            (HbPieceRole::LightBishop, Color::White),
            (HbPieceRole::King, Color::Black),
            (HbPieceRole::Knight, Color::Black),
        ]
    );
    let mut counts = PieceCounts::from_array([1, 2, 3, 4, 5, 6]);
    assert_eq!(counts.total(), 21);
    assert_eq!(counts.iter(), vec![1, 2, 3, 4, 5, 6]);
    counts.swap_bishops();
    assert_eq!(counts.iter(), vec![1, 2, 3, 5, 4, 6]);
    assert_eq!(PieceCounts::empty().total(), 0);
    assert_eq!(HbPieceRole::from_token("Bd"), Some(HbPieceRole::DarkBishop));
    assert_eq!(HbPieceRole::from_token("B"), None);
    assert_eq!(HbPieceRole::LightBishop.token(), "Bl");
    assert!(HbPieceRole::LightBishop.is_bishop());
    assert!(!HbPieceRole::Knight.is_bishop());
}

#[test]
fn transforms_of_squares_and_sets() {
    // a1 = 0, h1 = 7, a8 = 56, h8 = 63
    assert_eq!(transform_square(0, Transform::FlipHorizontal), 7);
    assert_eq!(transform_square(0, Transform::FlipVertical), 56);
    assert_eq!(transform_square(0, Transform::Rotate180), 63);
    assert_eq!(transform_square(7, Transform::MirrorMain), 56);
    assert_eq!(transform_square(0, Transform::MirrorAnti), 63);
    assert_eq!(transform_square(1, Transform::Rotate90), 48);
    assert_eq!(transform_square(1, Transform::Rotate270), 15);
    assert_eq!(transform_bitboard(0b11, Transform::FlipHorizontal), 0b1100_0000);
    assert_eq!(transform_bitboard(0xFF, Transform::FlipVertical), 0xFF00_0000_0000_0000);
    assert_eq!(transform_bitboard(0x1234, Transform::Identity), 0x1234);
    assert_eq!(TransformSet::Horizontal.transforms().len(), 2);
    assert_eq!(TransformSet::Full.transforms().len(), 8);
}

#[test]
fn promotion_of_black_keeps_each_side_its_own_pawns() {
    let children = child_texts("Kh2vKa2");
    // Black's pawn on a2 is gone and Black has a queen; White keeps h2.
    let reached = material_key("Kh2vKQ");
    assert!(children.contains(&reached), "{reached} not in {children:?}");
    // No move gives Black both the queen and White's pawn.
    let unreachable = material_key("KvKQh7");
    assert!(!children.contains(&unreachable), "{unreachable} in {children:?}");
    let unreachable = material_key("KvKQa7");
    assert!(!children.contains(&unreachable), "{unreachable} in {children:?}");
}

#[test]
fn capture_by_a_black_pawn_keeps_each_side_its_own_pawns() {
    let children = child_texts("KRRvKe5");
    // The pawn takes a rook on d4 or on f4, or a rook is taken otherwise.
    for expected in ["KRvKd4", "KRvKf4", "KRvKe5"] {
        let expected = material_key(expected);
        assert!(children.contains(&expected), "{expected} not in {children:?}");
    }
    // The pawn does not change sides.
    for wrong in ["KRd5vK", "KRf5vK", "KRd4vK", "KRf4vK"] {
        let wrong = material_key(wrong);
        assert!(!children.contains(&wrong), "{wrong} in {children:?}");
    }
}
