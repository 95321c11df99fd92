//! The rules of chess, as the `shakmaty` crate implements them.
//!
//! Nothing in this file is proved. Each function hands a position to
//! `shakmaty` and brings the answer back as plain values; what `shakmaty`
//! answers is a function of the position alone, and has a name here.

use crate::material_key::hb_piece::Color;
use crate::position::{Board, BoardRole, ChessMove, Position};
use shakmaty::{Bitboard, ByColor, ByRole, CastlingMode, Chess, Setup, Square};
use vstd::prelude::*;

verus! {

/// `shakmaty::Chess`: a position that `shakmaty` has accepted.
#[verifier::external_type_specification]
#[verifier::external_body]
pub struct ExChess(shakmaty::Chess);

/// `shakmaty::Setup`: a board, a side to move and an en passant square that
/// `shakmaty` has not yet looked at.
#[verifier::external_type_specification]
#[verifier::external_body]
pub struct ExSetup(shakmaty::Setup);

/// `shakmaty::Move`.
#[verifier::external_type_specification]
#[verifier::external_body]
pub struct ExMove(shakmaty::Move);

/// `shakmaty::Role`.
#[verifier::external_type_specification]
#[verifier::external_body]
pub struct ExRole(shakmaty::Role);

/// What `Chess::from_setup` says of a position under standard rules:
/// `Ok` where it accepts the position, else the bits of the kinds of error
/// that it found (no bits where the sets of squares contradict each other).
pub uninterp spec fn setup_check(position: Position) -> Result<(), u32>;

/// The legal moves of a position, as `Position::legal_moves` lists them;
/// nothing where `shakmaty` cannot play from the position.
pub uninterp spec fn rules_legal_moves(position: Position) -> Option<Seq<ChessMove>>;

/// The position after a move, as `Position::play` gives it; nothing where
/// `shakmaty` cannot play from the position, the move names a square off
/// the board, or the move is not legal.
pub uninterp spec fn rules_play(position: Position, mv: ChessMove) -> Option<Position>;

/// Whether the side to move is checkmated, as `Position::is_checkmate` says.
pub uninterp spec fn rules_checkmate(position: Position) -> Option<bool>;

/// Whether the side to move is stalemated, as `Position::is_stalemate` says.
pub uninterp spec fn rules_stalemate(position: Position) -> Option<bool>;

/// Whether neither side can win, as `Position::is_insufficient_material` says.
pub uninterp spec fn rules_insufficient_material(position: Position) -> Option<bool>;

/// Turns a `shakmaty::Role` into a role of this library, variant by variant.
#[verifier::external_body]
fn role_of(role: shakmaty::Role) -> BoardRole {
    match role {
        shakmaty::Role::Pawn => BoardRole::Pawn,
        shakmaty::Role::Knight => BoardRole::Knight,
        shakmaty::Role::Bishop => BoardRole::Bishop,
        shakmaty::Role::Rook => BoardRole::Rook,
        shakmaty::Role::Queen => BoardRole::Queen,
        shakmaty::Role::King => BoardRole::King,
    }
}

/// Turns a role of this library into a `shakmaty::Role`, variant by variant.
#[verifier::external_body]
fn outside_role(role: BoardRole) -> shakmaty::Role {
    match role {
        BoardRole::Pawn => shakmaty::Role::Pawn,
        BoardRole::Knight => shakmaty::Role::Knight,
        BoardRole::Bishop => shakmaty::Role::Bishop,
        BoardRole::Rook => shakmaty::Role::Rook,
        BoardRole::Queen => shakmaty::Role::Queen,
        BoardRole::King => shakmaty::Role::King,
    }
}

/// Fills a `shakmaty::Setup` with the board, the side to move and the en
/// passant square of a position, through `Board::try_from_bitboards` and
/// `Square::try_from`; nothing where one of them refuses its argument.
#[verifier::external_body]
fn setup_of(position: &Position) -> Option<Setup> {
    let b = position.board;
    let by_role = ByRole {
        pawn: Bitboard(b.pawns), knight: Bitboard(b.knights), bishop: Bitboard(b.bishops),
        rook: Bitboard(b.rooks), queen: Bitboard(b.queens), king: Bitboard(b.kings),
    };
    let by_color = ByColor { black: Bitboard(b.black), white: Bitboard(b.white) };
    let mut setup = Setup::empty();
    setup.board = shakmaty::Board::try_from_bitboards(by_role, by_color).ok()?;
    setup.turn = shakmaty::Color::from_white(position.turn == Color::White);
    setup.ep_square = match position.ep_square {
        Some(sq) => Some(Square::try_from(sq).ok()?),
        None => None,
    };
    Some(setup)
}

/// Sets a position up for play through `Setup::position`. A position that
/// `shakmaty` refuses only for an impossible check or for too much
/// material is taken all the same, as `PositionError` offers.
#[verifier::external_body]
fn chess_of(position: &Position) -> Option<Chess> {
    setup_of(position)?
        .position::<Chess>(CastlingMode::Standard)
        .or_else(shakmaty::PositionError::ignore_impossible_check)
        .or_else(shakmaty::PositionError::ignore_too_much_material)
        .ok()
}

/// Reads a position back from `shakmaty`, through `Position::to_setup` and
/// `Board::into_bitboards`. The en passant square is given where a pawn
/// can in fact be taken en passant.
#[verifier::external_body]
fn position_of(chess: &Chess) -> Position {
    let setup = shakmaty::Position::to_setup(chess, shakmaty::EnPassantMode::Legal);
    let (r, c) = setup.board.into_bitboards();
    let board = Board {
        white: c.white.0, black: c.black.0, pawns: r.pawn.0, knights: r.knight.0,
        bishops: r.bishop.0, rooks: r.rook.0, queens: r.queen.0, kings: r.king.0,
    };
    let turn = match setup.turn {
        shakmaty::Color::White => Color::White,
        shakmaty::Color::Black => Color::Black,
    };
    Position { board, turn, ep_square: setup.ep_square.map(u8::from) }
}

/// Turns a `shakmaty::Move` into a move of this library, variant by variant.
#[verifier::external_body]
fn move_of(m: &shakmaty::Move) -> ChessMove {
    ChessMove {
        role: role_of(m.role()),
        from: u8::from(m.from().unwrap_or(m.to())),
        to: u8::from(m.to()),
        capture: m.capture().map(role_of),
        promotion: m.promotion().map(role_of),
        en_passant: m.is_en_passant(),
    }
}

/// Turns a move of this library into a `shakmaty::Move`, its squares
/// through `Square::try_from`; nothing where a square is off the board.
#[verifier::external_body]
fn outside_move(m: &ChessMove) -> Option<shakmaty::Move> {
    let from = Square::try_from(m.from).ok()?;
    let to = Square::try_from(m.to).ok()?;
    Some(match m.en_passant {
        true => shakmaty::Move::EnPassant { from, to },
        false => shakmaty::Move::Normal {
            role: outside_role(m.role),
            from,
            capture: m.capture.map(outside_role),
            to,
            promotion: m.promotion.map(outside_role),
        },
    })
}

/// `Chess::from_setup` under standard rules: whether `shakmaty` accepts the
/// position, and the kinds of error if it does not.
#[verifier::external_body]
pub(crate) fn check_setup(position: &Position) -> (r: Result<(), u32>)
    ensures
        r == setup_check(*position),
{
    match setup_of(position) {
        None => Err(0),
        Some(setup) => match setup.position::<Chess>(CastlingMode::Standard) {
            Ok(_) => Ok(()),
            Err(e) => Err(e.kinds().bits()),
        },
    }
}

/// `Position::legal_moves`: the legal moves of the position.
#[verifier::external_body]
pub(crate) fn legal_moves(position: &Position) -> (r: Option<Vec<ChessMove>>)
    ensures
        match r {
            Some(moves) => rules_legal_moves(*position) == Some(moves@),
            None => rules_legal_moves(*position).is_none(),
        },
{
    chess_of(position).map(|c| shakmaty::Position::legal_moves(&c).iter().map(move_of).collect())
}

/// `Position::play`: the position after the move, if the move is legal.
#[verifier::external_body]
pub(crate) fn play(position: &Position, mv: &ChessMove) -> (r: Option<Position>)
    ensures
        r == rules_play(*position, *mv),
{
    let chess = chess_of(position)?;
    shakmaty::Position::play(chess, outside_move(mv)?).ok().map(|c| position_of(&c))
}

/// `Position::is_checkmate`.
#[verifier::external_body]
pub(crate) fn is_checkmate(position: &Position) -> (r: Option<bool>)
    ensures
        r == rules_checkmate(*position),
{
    chess_of(position).map(|c| shakmaty::Position::is_checkmate(&c))
}

/// `Position::is_stalemate`.
#[verifier::external_body]
pub(crate) fn is_stalemate(position: &Position) -> (r: Option<bool>)
    ensures
        r == rules_stalemate(*position),
{
    chess_of(position).map(|c| shakmaty::Position::is_stalemate(&c))
}

/// `Position::is_insufficient_material`.
#[verifier::external_body]
pub(crate) fn is_insufficient_material(position: &Position) -> (r: Option<bool>)
    ensures
        r == rules_insufficient_material(*position),
{
    chess_of(position).map(|c| shakmaty::Position::is_insufficient_material(&c))
}

} // verus!
