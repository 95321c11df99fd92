use heisenbase::material_key::{Color, MaterialKey};
use heisenbase::position::{Board, BoardRole, Position};
use heisenbase::position_indexer::PositionIndexer;
use heisenbase::score::DtzScoreRange;
use heisenbase::table_builder::{TableBuilder, MAX_STEPS};
use heisenbase::wdl_score_range::WdlScoreRange;
use heisenbase::wdl_table::WdlTable;
use shakmaty::{fen::Fen, CastlingMode, Chess, Position as _};

fn builder_position(fen: &str) -> Position {
    let chess: Chess = fen
        .parse::<Fen>()
        .unwrap()
        .into_position(CastlingMode::Standard)
        .unwrap();
    let b = chess.board();
    Position {
        board: Board {
            white: b.white().0,
            black: b.black().0,
            pawns: b.pawns().0,
            knights: b.knights().0,
            bishops: b.bishops().0,
            rooks: b.rooks().0,
            queens: b.queens().0,
            kings: b.kings().0,
        },
        turn: if chess.turn() == shakmaty::Color::White {
            Color::White
        } else {
            Color::Black
        },
        ep_square: None,
    }
}

#[test]
fn position_index_roundtrip() {
    let material = MaterialKey::from_string("KQvK").unwrap();
    let tb = TableBuilder {
        material: material.clone(),
        position_indexer: PositionIndexer::new(material),
        positions: Vec::new(),
        child_tables: Vec::new(),
        child_indexers: Vec::new(),
        loaded_child_tables: Vec::new(),
        missing_child_tables: Vec::new(),
    };

    let position = builder_position("7k/8/8/8/8/8/8/KQ6 w - - 0 1");

    let index = tb.position_indexer.position_to_index(&position).unwrap();
    let reconstructed = tb
        .position_indexer
        .index_to_position(index)
        .expect("valid position");

    assert_eq!(
        tb.position_indexer
            .position_to_index(&reconstructed)
            .unwrap(),
        index
    );
}

#[test]
fn terminal_positions_scored_in_first_step() {
    let material = MaterialKey::from_string("KQvK").unwrap();
    let mut tb = TableBuilder::new(material);

    // Mark all positions as draws so the step only evaluates the targets.
    tb.positions.fill(DtzScoreRange::draw());

    let checkmate = builder_position("k7/1Q6/2K5/8/8/8/8/8 b - - 0 1");
    let stalemate = builder_position("k7/8/1QK5/8/8/8/8/8 b - - 0 1");

    let checkmate_idx = tb.position_indexer.position_to_index(&checkmate).unwrap();
    let stalemate_idx = tb.position_indexer.position_to_index(&stalemate).unwrap();

    tb.positions[checkmate_idx] = DtzScoreRange::unknown();
    tb.positions[stalemate_idx] = DtzScoreRange::unknown();

    tb.step(vec![DtzScoreRange::unknown(); tb.positions.len()]);

    assert_eq!(tb.positions[checkmate_idx], DtzScoreRange::checkmate());
    assert_eq!(tb.positions[stalemate_idx], DtzScoreRange::draw());
}

#[test]
fn mate_in_one_scored_after_two_steps() {
    let material = MaterialKey::from_string("KQvK").unwrap();
    let mut tb = TableBuilder::new(material);

    // Pre-fill positions with draws so only relevant indices are processed.
    tb.positions.fill(DtzScoreRange::draw());

    let mate_in_one = builder_position("k7/8/1QK5/8/8/8/8/8 w - - 0 1");
    let idx = tb.position_indexer.position_to_index(&mate_in_one).unwrap();

    // Identify the checkmate position reached after Qb7#.
    let checkmate = builder_position("k7/1Q6/2K5/8/8/8/8/8 b - - 0 1");
    let checkmate_idx = tb.position_indexer.position_to_index(&checkmate).unwrap();

    tb.positions[idx] = DtzScoreRange::unknown();
    tb.positions[checkmate_idx] = DtzScoreRange::unknown();

    let mut positions_next = vec![DtzScoreRange::unknown(); tb.positions.len()];
    // First step marks the checkmate child.
    let updates;
    (updates, positions_next) = tb.step(positions_next);
    assert_eq!(updates, 2);
    assert_eq!(tb.positions[checkmate_idx], DtzScoreRange::checkmate());
    // Second step propagates to the parent position.
    tb.step(positions_next);

    let wdl: WdlScoreRange = WdlScoreRange::from_dtz(tb.positions[idx]);
    assert_eq!(wdl, WdlScoreRange::Win);
    // the mate, one halfmove on and seen from the other side
    assert_eq!(
        tb.positions[idx],
        DtzScoreRange::from_bounds(99, 99).unwrap()
    );
}

#[test]
fn child_tables_report_missing_when_unavailable() {
    let material = MaterialKey::from_string("KQvK").unwrap();
    let tb = TableBuilder::with_child_tables(material, Vec::new());
    assert!(tb.loaded_child_materials().is_empty());
    let missing: Vec<String> = tb
        .missing_child_materials()
        .iter()
        .map(|k| k.to_string())
        .collect();
    assert_eq!(missing, vec!["KvK".to_string()]);
}

#[test]
fn child_tables_load_available_files() {
    let material = MaterialKey::from_string("KQvK").unwrap();

    let child_key = MaterialKey::from_string("KvK").unwrap();
    let child_indexer = PositionIndexer::new(child_key.clone());
    let positions = vec![WdlScoreRange::Draw; child_indexer.total_positions()];
    let kvk_wdl_table = WdlTable {
        material: child_key,
        positions,
    };

    let tb = TableBuilder::with_child_tables(material, vec![kvk_wdl_table.clone()]);
    let loaded: Vec<String> = tb
        .loaded_child_materials()
        .iter()
        .map(|k| k.to_string())
        .collect();
    assert_eq!(loaded, vec!["KvK".to_string()]);
    assert!(tb.missing_child_materials().is_empty());
    assert_eq!(tb.child_tables, vec![kvk_wdl_table]);
    assert_eq!(tb.child_indexers.len(), 1);
}

#[test]
fn child_tables_of_the_wrong_size_are_missing() {
    let material = MaterialKey::from_string("KQvK").unwrap();
    let short = WdlTable {
        material: MaterialKey::from_string("KvK").unwrap(),
        positions: vec![WdlScoreRange::Draw; 100],
    };
    let other = WdlTable {
        material: MaterialKey::from_string("KRvK").unwrap(),
        positions: vec![WdlScoreRange::Draw; 2 * 64 * 64 * 64],
    };
    let tb = TableBuilder::with_child_tables(material, vec![short, other]);
    assert!(tb.loaded_child_materials().is_empty());
    assert_eq!(tb.missing_child_materials().len(), 1);
}

#[test]
fn pawn_move_uses_child_table() {
    let material = MaterialKey::from_string("Ka2vK").unwrap();

    let child_key = MaterialKey::from_string("Ka3vK").unwrap();
    let child_indexer = PositionIndexer::new(child_key.clone());
    let positions = vec![WdlScoreRange::Draw; child_indexer.total_positions()];
    let child_table = WdlTable {
        material: child_key,
        positions,
    };

    let tb = TableBuilder::with_child_tables(material, vec![child_table]);

    let position = builder_position("8/8/8/8/8/8/P7/K6k w - - 0 1");
    let chess: Chess = "8/8/8/8/8/8/P7/K6k w - - 0 1"
        .parse::<Fen>()
        .unwrap()
        .into_position(CastlingMode::Standard)
        .unwrap();

    let pawn_move = chess
        .legal_moves()
        .into_iter()
        .find(|mv| mv.role() == shakmaty::Role::Pawn && mv.to() == shakmaty::Square::A3)
        .expect("expected a2a3 pawn move");
    let pawn_move = heisenbase::position::ChessMove {
        role: BoardRole::Pawn,
        from: u32::from(pawn_move.from().unwrap()) as u8,
        to: u32::from(pawn_move.to()) as u8,
        capture: None,
        promotion: None,
        en_passant: false,
    };
    let result = tb.evaluate_move(&tb.positions, &position, pawn_move);
    assert_eq!(result, DtzScoreRange::draw());
}

#[test]
fn moves_that_the_rules_refuse_say_nothing() {
    let tb = TableBuilder::new(MaterialKey::from_string("KQvK").unwrap());
    let position = builder_position("7k/8/8/8/8/8/8/KQ6 w - - 0 1");
    let jump = heisenbase::position::ChessMove {
        role: BoardRole::King,
        from: 0,
        to: 27,
        capture: None,
        promotion: None,
        en_passant: false,
    };
    assert_eq!(
        tb.evaluate_move(&tb.positions, &position, jump),
        DtzScoreRange::unknown()
    );
    // a quiet queen move: the range of the position after it, one halfmove on, seen by Black
    let quiet = heisenbase::position::ChessMove {
        role: BoardRole::Queen,
        from: 1,
        to: 9,
        capture: None,
        promotion: None,
        en_passant: false,
    };
    assert_eq!(
        tb.evaluate_move(&tb.positions, &position, quiet),
        DtzScoreRange::from_bounds(-99, 98).unwrap()
    );
}

#[test]
fn capture_into_a_loaded_child() {
    // White takes the rook on b8; the child position is marked as lost for Black
    let material = MaterialKey::from_string("KQvKR").unwrap();
    let child_key = MaterialKey::from_string("KQvK").unwrap();
    let child_indexer = PositionIndexer::new(child_key.clone());
    let after_capture = builder_position("1Q5k/8/8/8/8/8/8/K7 b - - 0 1");
    let child_index = child_indexer.position_to_index(&after_capture).unwrap();
    let mut positions = vec![WdlScoreRange::Draw; child_indexer.total_positions()];
    positions[child_index] = WdlScoreRange::Loss;
    let tb = TableBuilder::with_child_tables(
        material,
        vec![WdlTable {
            material: child_key,
            positions,
        }],
    );
    let parent = builder_position("1r5k/8/8/8/8/8/8/KQ6 w - - 0 1");
    let capture = heisenbase::position::ChessMove {
        role: BoardRole::Queen,
        from: 1,
        to: 57,
        capture: Some(BoardRole::Rook),
        promotion: None,
        en_passant: false,
    };
    let score = tb.evaluate_move(&tb.positions, &parent, capture);
    assert_eq!(score, DtzScoreRange::checkmate());
    assert_eq!(WdlScoreRange::from_dtz(score.flip()), WdlScoreRange::Win);
    let parent_index = tb.position_indexer.position_to_index(&parent).unwrap();
    let parent_score = tb.score_position(&tb.positions, parent_index);
    assert_eq!(WdlScoreRange::from_dtz(parent_score), WdlScoreRange::Win);
}

#[test]
fn solving_two_kings() {
    let material = MaterialKey::from_string("KvK").unwrap();
    let mut tb = TableBuilder::new(material);
    assert_eq!(tb.positions.len(), 8192);
    let sweeps = tb.solve().unwrap();
    assert!(sweeps >= 1 && sweeps <= MAX_STEPS);
    let table = tb.to_wdl_table().unwrap();
    assert_eq!(table.positions.len(), 8192);
    for (index, value) in table.positions.iter().enumerate() {
        match tb.position_indexer.index_to_position(index) {
            Ok(_) => assert_eq!(*value, WdlScoreRange::Draw),
            Err(_) => assert_eq!(*value, WdlScoreRange::IllegalPosition),
        }
    }
    // at rest: one more sweep changes nothing
    let (updates, _) = tb.step(vec![DtzScoreRange::unknown(); 8192]);
    assert_eq!(updates, 0);
}
