//! A numbering of the positions of one material: every placement of the
//! pieces has an index, and every index below the total stands for one
//! placement.

use crate::bitboard::{contains, has_square, DARK_SQUARES, LIGHT_SQUARES};
use crate::material_key::hb_piece::{Color, HbPiece, HbPieceRole};
use crate::material_key::MaterialKey;
use crate::position::{Board, BoardRole, Piece, Position};
use crate::rules::{check_setup, setup_check};
use vstd::prelude::*;

verus! {

/// Why an index has no position, or a position no index.
#[derive(Clone, Copy, Debug, PartialEq, Eq, Structural)]
pub enum PositionMappingError {
    /// The material key does not match the position.
    MismatchedMaterial,
    /// The index is out of bounds.
    IndexOutOfBounds,
    /// The index corresponds to a position where two pieces are on the same square.
    TwoPiecesOnSameSquare,
    /// The resulting position fits on the board, but is invalid due to
    /// some rule of chess: the bits say which kinds of rule.
    InvalidPosition(u32),
}

/// The number of squares that a piece of the role can stand on: 32 for a
/// bishop, which keeps to the squares of one color, 64 for the others.
pub open spec fn radix_of(role: HbPieceRole) -> nat {
    match role {
        HbPieceRole::LightBishop | HbPieceRole::DarkBishop => 32,
        _ => 64,
    }
}

/// The product of the radices of the first `k` pieces.
pub open spec fn radix_product(pieces: Seq<HbPiece>, k: nat) -> nat
    decreases k,
{
    if k == 0 {
        1
    } else {
        radix_product(pieces, (k - 1) as nat) * radix_of(pieces[k - 1].role)
    }
}

/// The number of indices of a material: two sides to move, times the
/// radix of each piece.
pub open spec fn total_positions_of(key: MaterialKey) -> nat {
    2 * radix_product(key.spec_pieces(), key.spec_pieces().len())
}

/// The `n`-th light square, counted by rank and then by file.
pub open spec fn nth_light_square_of(n: int) -> int {
    let rank = n / 4;
    let file_index = n % 4;
    rank * 8 + if rank % 2 == 0 {
        1 + 2 * file_index
    } else {
        2 * file_index
    }
}

/// The `n`-th dark square, counted by rank and then by file.
pub open spec fn nth_dark_square_of(n: int) -> int {
    let rank = n / 4;
    let file_index = n % 4;
    rank * 8 + if rank % 2 == 0 {
        2 * file_index
    } else {
        1 + 2 * file_index
    }
}

/// The square that a digit of an index stands for.
pub open spec fn square_of_digit(role: HbPieceRole, digit: int) -> int {
    match role {
        HbPieceRole::LightBishop => nth_light_square_of(digit),
        HbPieceRole::DarkBishop => nth_dark_square_of(digit),
        _ => digit,
    }
}

/// The digit of an index that stands for a square.
pub open spec fn digit_of_square(role: HbPieceRole, sq: int) -> int {
    match role {
        HbPieceRole::LightBishop | HbPieceRole::DarkBishop => sq / 2,
        _ => sq,
    }
}

/// The squares that a piece of the role can stand on.
pub open spec fn squares_for(role: HbPieceRole) -> u64 {
    match role {
        HbPieceRole::LightBishop => LIGHT_SQUARES,
        HbPieceRole::DarkBishop => DARK_SQUARES,
        _ => 0xFFFF_FFFF_FFFF_FFFF,
    }
}

/// The role of a piece on the board.
pub open spec fn board_role(role: HbPieceRole) -> BoardRole {
    match role {
        HbPieceRole::King => BoardRole::King,
        HbPieceRole::Queen => BoardRole::Queen,
        HbPieceRole::Rook => BoardRole::Rook,
        HbPieceRole::LightBishop | HbPieceRole::DarkBishop => BoardRole::Bishop,
        HbPieceRole::Knight => BoardRole::Knight,
    }
}

/// A piece as it stands on the board.
pub open spec fn board_piece(piece: HbPiece) -> Piece {
    Piece { color: piece.color, role: board_role(piece.role) }
}

/// The board after the pieces from the `k`-th on were put on the squares
/// that the digits of `remaining` give them; nothing where a piece would
/// come to stand on an occupied square.
pub open spec fn placed(board: Board, pieces: Seq<HbPiece>, remaining: nat, k: nat) -> Option<
    Board,
>
    decreases pieces.len() - k,
{
    if k >= pieces.len() {
        Some(board)
    } else {
        let radix = radix_of(pieces[k as int].role);
        let sq = square_of_digit(pieces[k as int].role, (remaining % radix) as int);
        if has_square(board.spec_occupied(), sq) {
            None
        } else {
            placed(
                board.with_piece(sq, board_piece(pieces[k as int])),
                pieces,
                remaining / radix,
                k + 1,
            )
        }
    }
}

/// The position of an index.
pub open spec fn position_of_index(key: MaterialKey, index: nat) -> Result<
    Position,
    PositionMappingError,
> {
    if index >= total_positions_of(key) {
        Err(PositionMappingError::IndexOutOfBounds)
    } else {
        match placed(Board::of_pawns(key.pawns), key.spec_pieces(), index / 2, 0) {
            None => Err(PositionMappingError::TwoPiecesOnSameSquare),
            Some(board) => {
                let position = Position {
                    board,
                    turn: if index % 2 == 0 {
                        Color::White
                    } else {
                        Color::Black
                    },
                    ep_square: None,
                };
                match setup_check(position) {
                    Ok(_) => Ok(position),
                    Err(kinds) => Err(PositionMappingError::InvalidPosition(kinds)),
                }
            },
        }
    }
}

/// The lowest member of `bb` at or above `from`.
pub open spec fn lowest_from(bb: u64, from: nat) -> Option<int>
    decreases 64 - from,
{
    if from >= 64 {
        None
    } else if has_square(bb, from as int) {
        Some(from as int)
    } else {
        lowest_from(bb, from + 1)
    }
}

/// The number that the digits of the pieces from the `k`-th on make up,
/// each piece taken from the lowest square on which one of its kind
/// stands; nothing where the board lacks a piece.
pub open spec fn digits_value(board: Board, pieces: Seq<HbPiece>, k: nat) -> Option<nat>
    decreases pieces.len() - k,
{
    if k >= pieces.len() {
        Some(0)
    } else {
        let piece = pieces[k as int];
        match lowest_from(squares_for(piece.role) & board.spec_by_piece(board_piece(piece)), 0) {
            None => None,
            Some(sq) => match digits_value(board.without_piece(sq), pieces, k + 1) {
                None => None,
                Some(rest) => Some(
                    (digit_of_square(piece.role, sq) + radix_of(piece.role) * rest) as nat,
                ),
            },
        }
    }
}

/// The index of a position.
pub open spec fn index_of_position(key: MaterialKey, position: Position) -> Result<
    nat,
    PositionMappingError,
> {
    if position.board.spec_pawn_structure() != key.pawns {
        Err(PositionMappingError::MismatchedMaterial)
    } else {
        match digits_value(position.board, key.spec_pieces(), 0) {
            None => Err(PositionMappingError::MismatchedMaterial),
            Some(value) => Ok(
                (if position.turn == Color::White {
                    0nat
                } else {
                    1nat
                }) + 2 * value,
            ),
        }
    }
}

/// The products of the radices grow with the number of pieces.
pub proof fn lemma_radix_product_grows(pieces: Seq<HbPiece>, k: nat, n: nat)
    requires
        k <= n,
    ensures
        1 <= radix_product(pieces, k) <= radix_product(pieces, n),
    decreases n - k,
{
    if k < n {
        lemma_radix_product_grows(pieces, k, (n - 1) as nat);
        let p = radix_product(pieces, (n - 1) as nat);
        let r = radix_of(pieces[n - 1].role);
        assert(p * r >= p) by (nonlinear_arith)
            requires
                r >= 1,
                p >= 0,
        ;
    } else {
        lemma_radix_product_positive(pieces, k);
    }
}

/// A product of radices is at least one.
pub proof fn lemma_radix_product_positive(pieces: Seq<HbPiece>, k: nat)
    ensures
        radix_product(pieces, k) >= 1,
    decreases k,
{
    if k > 0 {
        lemma_radix_product_positive(pieces, (k - 1) as nat);
        let p = radix_product(pieces, (k - 1) as nat);
        let r = radix_of(pieces[k - 1].role);
        assert(p * r >= 1) by (nonlinear_arith)
            requires
                r >= 1,
                p >= 1,
        ;
    }
}

/// The `n`-th light square.
pub fn nth_light_square(n: u32) -> (r: u8)
    requires
        n < 32,
    ensures
        r == nth_light_square_of(n as int),
        r < 64,
        r / 2 == n,
{
    let rank = n / 4;
    let file_index = n % 4;
    let file = if rank % 2 == 0 {
        1 + 2 * file_index
    } else {
        2 * file_index
    };
    (rank * 8 + file) as u8
}

/// The `n`-th dark square.
pub fn nth_dark_square(n: u32) -> (r: u8)
    requires
        n < 32,
    ensures
        r == nth_dark_square_of(n as int),
        r < 64,
        r / 2 == n,
{
    let rank = n / 4;
    let file_index = n % 4;
    let file = if rank % 2 == 0 {
        2 * file_index
    } else {
        1 + 2 * file_index
    };
    (rank * 8 + file) as u8
}

/// The lowest square of the set, if it has one.
pub fn first_square(bb: u64) -> (r: Option<u8>)
    ensures
        match r {
            Some(sq) => lowest_from(bb, 0) == Some(sq as int) && sq < 64 && has_square(
                bb,
                sq as int,
            ),
            None => lowest_from(bb, 0).is_none(),
        },
{
    let mut sq: u8 = 0;
    while sq < 64
        invariant
            sq <= 64,
            lowest_from(bb, 0) == lowest_from(bb, sq as nat),
        decreases 64 - sq,
    {
        if contains(bb, sq) {
            return Some(sq);
        }
        sq += 1;
    }
    None
}

impl HbPieceRole {
    /// The role of a piece on the board.
    pub fn role(self) -> (r: BoardRole)
        ensures
            r == board_role(self),
    {
        match self {
            HbPieceRole::King => BoardRole::King,
            HbPieceRole::Queen => BoardRole::Queen,
            HbPieceRole::Rook => BoardRole::Rook,
            HbPieceRole::DarkBishop | HbPieceRole::LightBishop => BoardRole::Bishop,
            HbPieceRole::Knight => BoardRole::Knight,
        }
    }

    /// The number of squares that a piece of the role can stand on.
    pub fn radix(self) -> (r: usize)
        ensures
            r == radix_of(self),
    {
        match self {
            HbPieceRole::LightBishop | HbPieceRole::DarkBishop => 32,
            _ => 64,
        }
    }
}

impl HbPiece {
    /// The piece as it stands on the board.
    pub fn to_piece(self) -> (r: Piece)
        ensures
            r == board_piece(self),
    {
        Piece { color: self.color, role: self.role.role() }
    }
}

/// This struct is used to create a Gödel number mapping for all positions
/// of a material key.
#[derive(Clone, Copy, Debug)]
pub struct PositionIndexer {
    material_key: MaterialKey,
    total_positions: usize,
}

impl PositionIndexer {
    /// The material whose positions are numbered.
    pub closed spec fn material(self) -> MaterialKey {
        self.material_key
    }

    /// The total is the number of indices of the material.
    pub closed spec fn wf(self) -> bool {
        self.total_positions == total_positions_of(self.material_key)
    }

    /// The indexer of a material whose number of indices fits the machine.
    pub fn new(material_key: MaterialKey) -> (r: Self)
        requires
            total_positions_of(material_key) <= usize::MAX,
        ensures
            r.wf(),
            r.material() == material_key,
    {
        match Self::try_new(material_key) {
            Some(indexer) => indexer,
            None => Self { material_key, total_positions: 0 },
        }
    }

    /// The indexer of a material, or `None` where the number of its indices
    /// does not fit the machine.
    pub fn try_new(material_key: MaterialKey) -> (r: Option<Self>)
        ensures
            r.is_some() <==> total_positions_of(material_key) <= usize::MAX,
            r.is_some() ==> r.unwrap().wf() && r.unwrap().material() == material_key,
    {
        let pieces = material_key.pieces();
        let mut total_positions: usize = 2;
        let mut k: usize = 0;
        while k < pieces.len()
            invariant
                k <= pieces@.len(),
                pieces@ == material_key.spec_pieces(),
                total_positions == 2 * radix_product(pieces@, k as nat),
            decreases pieces@.len() - k,
        {
            let radix = pieces[k].role.radix();
            let ghost before = radix_product(pieces@, k as nat);
            match total_positions.checked_mul(radix) {
                Some(next) => {
                    proof {
                        assert(2 * before * radix == 2 * (before * radix)) by (nonlinear_arith);
                    }
                    total_positions = next;
                },
                None => {
                    proof {
                        lemma_radix_product_grows(pieces@, (k + 1) as nat, pieces@.len());
                        assert(2 * before * radix == 2 * (before * radix)) by (nonlinear_arith);
                    }
                    return None;
                },
            }
            k += 1;
        }
        Some(Self { material_key, total_positions })
    }

    pub fn total_positions(&self) -> (r: usize)
        requires
            self.wf(),
        ensures
            r == total_positions_of(self.material()),
    {
        self.total_positions
    }

    /// The material whose positions are numbered.
    pub fn material_key(&self) -> (r: MaterialKey)
        ensures
            r == self.material(),
    {
        self.material_key
    }

    /// Convert an index into a position.
    ///
    /// Every index less than `self.total_positions()` corresponds to a
    /// unique arrangement of the pieces described by the material key.
    /// The mapping is purely combinatorial and intentionally ignores the
    /// rules of play, so some indices yield setups that are unreachable or
    /// illegal under normal chess rules. When the rules reject such a
    /// placement, this function returns `InvalidPosition`; when two pieces
    /// come to stand on one square, `TwoPiecesOnSameSquare`.
    ///
    /// Indices greater than or equal to `total_positions()` return
    /// `IndexOutOfBounds`.
    pub fn index_to_position(&self, index: usize) -> (r: Result<Position, PositionMappingError>)
        requires
            self.wf(),
        ensures
            r == position_of_index(self.material(), index as nat),
    {
        if index >= self.total_positions {
            return Err(PositionMappingError::IndexOutOfBounds);
        }
        let turn = if index % 2 == 0 {
            Color::White
        } else {
            Color::Black
        };
        let mut remaining = index / 2;
        let mut board = self.material_key.pawns.to_board();
        let pieces = self.material_key.pieces();
        let ghost first = board;
        let mut k: usize = 0;
        while k < pieces.len()
            invariant
                k <= pieces@.len(),
                self.wf(),
                index < self.total_positions,
                first == Board::of_pawns(self.material_key.pawns),
                pieces@ == self.material_key.spec_pieces(),
                placed(first, pieces@, (index / 2) as nat, 0) == placed(
                    board,
                    pieces@,
                    remaining as nat,
                    k as nat,
                ),
            decreases pieces@.len() - k,
        {
            let piece = pieces[k];
            let radix = piece.role.radix();
            let digit = remaining % radix;
            remaining = remaining / radix;
            let square = match piece.role {
                HbPieceRole::LightBishop => nth_light_square(digit as u32),
                HbPieceRole::DarkBishop => nth_dark_square(digit as u32),
                _ => digit as u8,
            };
            if contains(board.occupied(), square) {
                return Err(PositionMappingError::TwoPiecesOnSameSquare);
            }
            board.set_piece_at(square, piece.to_piece());
            k += 1;
        }
        let position = Position { board, turn, ep_square: None };
        match check_setup(&position) {
            Ok(_) => Ok(position),
            Err(kinds) => Err(PositionMappingError::InvalidPosition(kinds)),
        }
    }

    /// The index of a position of this material: the side to move, then for
    /// each piece in turn the lowest square on which one of its kind stands.
    /// A position with other pawns, or without one of the pieces, gives
    /// `MismatchedMaterial`.
    pub fn position_to_index(&self, position: &Position) -> (r: Result<usize, PositionMappingError>)
        requires
            self.wf(),
        ensures
            match r {
                Ok(index) => index_of_position(self.material(), *position) == Ok::<
                    nat,
                    PositionMappingError,
                >(index as nat) && index < total_positions_of(self.material()),
                Err(e) => index_of_position(self.material(), *position) == Err::<
                    nat,
                    PositionMappingError,
                >(e),
            },
    {
        let pawns = position.board.pawn_structure();
        if pawns.white != self.material_key.pawns.white || pawns.black
            != self.material_key.pawns.black {
            return Err(PositionMappingError::MismatchedMaterial);
        }
        let pieces = self.material_key.pieces();
        let turn_index: usize = match position.turn {
            Color::White => 0,
            Color::Black => 1,
        };
        let mut index: usize = turn_index;
        let mut multiplier: usize = 2;
        let mut board = position.board;
        let ghost mut acc: nat = 0;
        let mut k: usize = 0;
        proof {
            lemma_radix_product_grows(pieces@, 0, pieces@.len());
        }
        while k < pieces.len()
            invariant
                k <= pieces@.len(),
                self.wf(),
                pieces@ == self.material_key.spec_pieces(),
                turn_index <= 1,
                index == turn_index + 2 * acc,
                multiplier == 2 * radix_product(pieces@, k as nat),
                acc < radix_product(pieces@, k as nat),
                digits_value(position.board, pieces@, 0) == match digits_value(
                    board,
                    pieces@,
                    k as nat,
                ) {
                    Some(rest) => Some((acc + radix_product(pieces@, k as nat) * rest) as nat),
                    None => None,
                },
            decreases pieces@.len() - k,
        {
            let piece = pieces[k];
            let radix = piece.role.radix();
            let mask: u64 = match piece.role {
                HbPieceRole::LightBishop => LIGHT_SQUARES,
                HbPieceRole::DarkBishop => DARK_SQUARES,
                _ => 0xFFFF_FFFF_FFFF_FFFF,
            };
            let bitboard = mask & board.by_piece(piece.to_piece());
            let square = match first_square(bitboard) {
                Some(square) => square,
                None => {
                    return Err(PositionMappingError::MismatchedMaterial);
                },
            };
            let ghost before = board;
            board.discard_piece_at(square);
            let digit: usize = match piece.role {
                HbPieceRole::LightBishop | HbPieceRole::DarkBishop => (square / 2) as usize,
                _ => square as usize,
            };
            proof {
                let prod = radix_product(pieces@, k as nat);
                let full = radix_product(pieces@, pieces@.len());
                lemma_radix_product_grows(pieces@, (k + 1) as nat, pieces@.len());
                assert(digit < radix);
                assert(acc + prod * digit < prod * radix) by (nonlinear_arith)
                    requires
                        acc < prod,
                        digit < radix,
                ;
                assert(prod * digit <= prod * radix) by (nonlinear_arith)
                    requires
                        digit < radix,
                        prod >= 0,
                ;
                assert(2 * prod * digit == 2 * (prod * digit)) by (nonlinear_arith);
                assert(2 * prod * radix == 2 * (prod * radix)) by (nonlinear_arith);
                match digits_value(board, pieces@, (k + 1) as nat) {
                    Some(rest) => {
                        assert(acc + prod * (digit + radix * rest) == (acc + prod * digit) + (prod
                            * radix) * rest) by (nonlinear_arith);
                    },
                    None => {},
                }
                acc = (acc + prod * digit) as nat;
            }
            index = index + multiplier * digit;
            multiplier = multiplier * radix;
            k += 1;
        }
        proof {
            let prod = radix_product(pieces@, pieces@.len());
            assert(prod * 0 == 0) by (nonlinear_arith);
            assert(digits_value(board, pieces@, pieces@.len()) == Some(0nat));
            assert(digits_value(position.board, pieces@, 0) == Some(acc));
        }
        Ok(index)
    }
}

} // verus!
