use heisenbase::material_key::{Color, MaterialKey};
use heisenbase::position::{Board, Position};
use heisenbase::position_indexer::{
    nth_dark_square, nth_light_square, PositionIndexer, PositionMappingError,
};
use rand::{rngs::StdRng, Rng, SeedableRng};
use shakmaty::{fen::Fen, CastlingMode, Chess, FromSetup, Piece, Position as _, Role, Setup, Square};

fn plain_position(chess: &Chess) -> Position {
    let b = chess.board();
    Position {
        board: Board {
            white: b.white().0,
            black: b.black().0,
            pawns: b.pawns().0,
            knights: b.knights().0,
            bishops: b.bishops().0,
            rooks: b.rooks().0,
            queens: b.queens().0,
            kings: b.kings().0,
        },
        turn: if chess.turn() == shakmaty::Color::White {
            Color::White
        } else {
            Color::Black
        },
        ep_square: None,
    }
}

fn position_from_fen(fen: &str) -> Position {
    let chess: Chess = fen
        .parse::<Fen>()
        .unwrap()
        .into_position(CastlingMode::Standard)
        .unwrap();
    plain_position(&chess)
}

fn roundtrip_random_indices(mk: MaterialKey, seed: u64) {
    let indexer = PositionIndexer::new(mk.clone());
    let mut rng = StdRng::seed_from_u64(seed);
    let total = indexer.total_positions();
    for _ in 0..10 {
        let index = rng.gen_range(0..total);

        let pos = match indexer.index_to_position(index) {
            Ok(pos) => pos,
            Err(_) => continue,
        };

        // The naive index can map 2 indices to the same position
        let index = indexer
            .position_to_index(&pos)
            .expect("This position came from a valid index, so it should never fail");
        let pos2 = indexer
            .index_to_position(index)
            .expect("This index came from a vald position, so it should never fail");
        assert_eq!(pos, pos2);
    }
}

#[test]
fn roundtrip_kvk() {
    let mk = MaterialKey::from_string("KvK").unwrap();
    roundtrip_random_indices(mk, 0);
}

#[test]
fn roundtrip_kqvk() {
    let mk = MaterialKey::from_string("KQvK").unwrap();
    roundtrip_random_indices(mk, 1);
}

#[test]
fn position_indexer_canonicalizes_table_builder_positions() {
    let mk = MaterialKey::from_string("KQvK").unwrap();
    let indexer = PositionIndexer::new(mk.clone());
    let fen = "k7/1Q6/2K5/8/8/8/8/8 b - - 0 1";
    let position = position_from_fen(fen);
    assert!(indexer.position_to_index(&position).is_ok());
}

#[test]
fn position_map_canonicalizes_table_builder_positions() {
    let mk = MaterialKey::from_string("KQvK").unwrap();
    let indexer = PositionIndexer::new(mk.clone());
    let fen = "k7/1Q6/2K5/8/8/8/8/8 b - - 0 1";
    let position = position_from_fen(fen);
    assert!(indexer.position_to_index(&position).is_ok());
}

#[test]
fn roundtrip_krvkb() {
    let mk = MaterialKey::from_string("KRvKBd").unwrap();
    roundtrip_random_indices(mk, 2);
}

#[test]
fn roundtrip_kqvkr() {
    let mk = MaterialKey::from_string("KQvKR").unwrap();
    roundtrip_random_indices(mk, 3);
}

#[test]
fn roundtrip_kbnvkq() {
    let mk = MaterialKey::from_string("KBdNvKQ").unwrap();
    roundtrip_random_indices(mk, 4);
}

#[test]
fn roundtrip_knnvk() {
    let mk = MaterialKey::from_string("KNNvK").unwrap();
    roundtrip_random_indices(mk, 5);
}

#[test]
fn position_indexer_index_to_position_out_of_bounds() {
    let mk = MaterialKey::from_string("KQvK").unwrap();
    let indexer = PositionIndexer::new(mk.clone());
    let index = indexer.total_positions();
    assert!(matches!(
        indexer.index_to_position(index),
        Err(PositionMappingError::IndexOutOfBounds)
    ));
}

#[test]
fn position_map_index_to_position_out_of_bounds() {
    let mk = MaterialKey::from_string("KQvK").unwrap();
    let indexer = PositionIndexer::new(mk.clone());
    let index = indexer.total_positions();
    assert!(matches!(
        indexer.index_to_position(index),
        Err(PositionMappingError::IndexOutOfBounds)
    ));
}

#[test]
fn exhaustive_roundtrip_kvk() {
    let mk = MaterialKey::from_string("KvK").unwrap();
    let indexer = PositionIndexer::new(mk.clone());
    for idx in 0..indexer.total_positions() {
        if let Ok(pos) = indexer.index_to_position(idx) {
            let roundtrip = indexer.position_to_index(&pos).unwrap();
            assert_eq!(idx, roundtrip);
        }
    }
}

fn two_kings() -> Position {
    let mut setup = Setup::empty();
    setup.board.set_piece_at(
        Square::E1,
        Piece {
            role: Role::King,
            color: shakmaty::Color::White,
        },
    );
    setup.board.set_piece_at(
        Square::E8,
        Piece {
            role: Role::King,
            color: shakmaty::Color::Black,
        },
    );
    setup.turn = shakmaty::Color::White;

    let pos = Chess::from_setup(setup, CastlingMode::Standard).unwrap();
    plain_position(&pos)
}

#[test]
fn position_indexer_position_to_index_mismatched_material() {
    let mk = MaterialKey::from_string("KQvK").unwrap();
    let indexer = PositionIndexer::new(mk.clone());
    let pos = two_kings();
    assert!(matches!(
        indexer.position_to_index(&pos),
        Err(PositionMappingError::MismatchedMaterial)
    ));
}

#[test]
fn position_map_position_to_index_mismatched_material() {
    let mk = MaterialKey::from_string("KQvK").unwrap();
    let indexer = PositionIndexer::new(mk.clone());
    let pos = two_kings();
    assert!(matches!(
        indexer.position_to_index(&pos),
        Err(PositionMappingError::MismatchedMaterial)
    ));
}

#[test]
fn position_with_pawn_roundtrips() {
    let mk = MaterialKey::from_string("Ka2vK").unwrap();
    let indexer = PositionIndexer::new(mk);
    let position = position_from_fen("8/8/8/8/8/8/P7/K6k w - - 0 1");

    let index = indexer.position_to_index(&position).unwrap();
    let reconstructed = indexer.index_to_position(index).unwrap();
    let board = reconstructed.board;
    let a2 = 1u64 << 8;
    assert!(board.pawns & a2 != 0);
    assert!(board.white & a2 != 0);
}

#[test]
fn position_to_index_rejects_missing_pawn() {
    let mk = MaterialKey::from_string("Ka2vK").unwrap();
    let indexer = PositionIndexer::new(mk);
    let position = position_from_fen("8/8/8/8/8/8/8/K6k w - - 0 1");

    assert!(matches!(
        indexer.position_to_index(&position),
        Err(PositionMappingError::MismatchedMaterial)
    ));
}

#[test]
fn total_positions_by_radix() {
    let total = |text: &str| PositionIndexer::new(MaterialKey::from_string(text).unwrap()).total_positions();
    assert_eq!(total("KvK"), 2 * 64 * 64);
    assert_eq!(total("KQvK"), 2 * 64 * 64 * 64);
    assert_eq!(total("KBdvK"), 2 * 64 * 32 * 64);
    assert_eq!(total("KBdBlvKN"), 2 * 64 * 32 * 32 * 64 * 64);
    assert_eq!(total("Ka2b3vKh7"), 2 * 64 * 64);
    let crowded = MaterialKey::from_string("KQQQQQQQQQQvK").unwrap();
    assert!(PositionIndexer::try_new(crowded).is_none());
}

#[test]
fn exact_indices() {
    let mk = MaterialKey::from_string("KQvK").unwrap();
    let indexer = PositionIndexer::new(mk);
    // white king a1 (0), white queen b1 (1), black king h8 (63), white to move
    let position = position_from_fen("7k/8/8/8/8/8/8/KQ6 w - - 0 1");
    assert_eq!(
        indexer.position_to_index(&position),
        Ok(2 * (0 + 64 * (1 + 64 * 63)))
    );
    // the same with black to move, which has to be legal for the rules: move the queen away
    let position = position_from_fen("7k/8/8/8/8/8/8/K1Q5 b - - 0 1");
    assert_eq!(
        indexer.position_to_index(&position),
        Ok(1 + 2 * (0 + 64 * (2 + 64 * 63)))
    );
    assert_eq!(
        indexer.index_to_position(1 + 2 * (0 + 64 * (2 + 64 * 63))),
        Ok(position)
    );
    // both kings on a1
    assert_eq!(
        indexer.index_to_position(0),
        Err(PositionMappingError::TwoPiecesOnSameSquare)
    );
    // kings side by side on a1 and b1, queen on c1
    assert!(matches!(
        indexer.index_to_position(2 * (0 + 64 * (2 + 64 * 1))),
        Err(PositionMappingError::InvalidPosition(_))
    ));
}

#[test]
fn bishops_keep_to_their_squares() {
    for n in 0..32u32 {
        let light = nth_light_square(n);
        let dark = nth_dark_square(n);
        assert_eq!((light / 8 + light % 8) % 2, 1);
        assert_eq!((dark / 8 + dark % 8) % 2, 0);
        assert_eq!(u32::from(light / 2), n);
        assert_eq!(u32::from(dark / 2), n);
    }
    assert_eq!(nth_light_square(0), 1);
    assert_eq!(nth_dark_square(0), 0);
    assert_eq!(nth_light_square(4), 8);
    assert_eq!(nth_dark_square(4), 9);

    let mk = MaterialKey::from_string("KBlvK").unwrap();
    let indexer = PositionIndexer::new(mk);
    let position = position_from_fen("7k/8/8/8/8/8/8/K1B5 w - - 0 1");
    // c1 is a dark square: the key has a light bishop only
    assert_eq!(
        indexer.position_to_index(&position),
        Err(PositionMappingError::MismatchedMaterial)
    );
    let position = position_from_fen("7k/8/8/8/8/8/8/KB6 w - - 0 1");
    let index = indexer.position_to_index(&position).unwrap();
    assert_eq!(index, 2 * (0 + 64 * (0 + 32 * 63)));
    assert_eq!(indexer.index_to_position(index), Ok(position));
}

#[test]
fn round_trip_settles_after_one_turn() {
    for (text, seed) in [("KNNvK", 11u64), ("KQQvKR", 12), ("KBdBdvKN", 13), ("KRa2vKRh7", 14)] {
        let indexer = PositionIndexer::new(MaterialKey::from_string(text).unwrap());
        let mut rng = StdRng::seed_from_u64(seed);
        let mut seen = 0;
        while seen < 50 {
            let index = rng.gen_range(0..indexer.total_positions());
            let Ok(position) = indexer.index_to_position(index) else {
                continue;
            };
            seen += 1;
            let once = indexer.position_to_index(&position).unwrap();
            assert_eq!(indexer.index_to_position(once), Ok(position));
            assert_eq!(indexer.position_to_index(&position), Ok(once));
        }
    }
}
