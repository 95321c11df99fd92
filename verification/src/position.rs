//! Boards and positions as plain values: one set of squares for each color
//! and each role, the side to move, and the en passant square.

use crate::bitboard::{
    add_square, contains, has_square, lemma_union_intersection, lemma_with_square,
    lemma_without_square, remove_square, with_square, without_square,
};
use crate::material_key::hb_piece::Color;
use crate::material_key::pawn_structure::PawnStructure;
use vstd::prelude::*;

verus! {

/// The role of a piece on the board. Here a bishop is a bishop, whatever
/// the color of its square.
#[derive(Debug, Clone, Copy, PartialEq, Eq, Hash, Structural)]
pub enum BoardRole {
    Pawn,
    Knight,
    Bishop,
    Rook,
    Queen,
    King,
}

/// A piece on the board.
#[derive(Debug, Clone, Copy, PartialEq, Eq, Hash, Structural)]
pub struct Piece {
    pub color: Color,
    pub role: BoardRole,
}

/// The pieces on the board: the squares of each color and of each role.
#[derive(Debug, Clone, Copy, PartialEq, Eq, Hash, Structural)]
pub struct Board {
    pub white: u64,
    pub black: u64,
    pub pawns: u64,
    pub knights: u64,
    pub bishops: u64,
    pub rooks: u64,
    pub queens: u64,
    pub kings: u64,
}

/// A position: the board, the side to move, and the square on which a pawn
/// can be taken en passant.
#[derive(Debug, Clone, Copy, PartialEq, Eq, Hash)]
pub struct Position {
    pub board: Board,
    pub turn: Color,
    pub ep_square: Option<u8>,
}

/// A move, as the rules of chess give it: the piece that moves, from where
/// to where, what it takes and what it becomes.
#[derive(Debug, Clone, Copy, PartialEq, Eq, Hash)]
pub struct ChessMove {
    pub role: BoardRole,
    pub from: u8,
    pub to: u8,
    pub capture: Option<BoardRole>,
    pub promotion: Option<BoardRole>,
    pub en_passant: bool,
}

/// What stands on a square, read from the sets of the board: the color
/// by the set of White before that of Black, the role by the sets in the
/// order pawn, knight, bishop, rook, queen, king.
pub open spec fn standing(b: Board, t: int) -> Option<Piece> {
    if !(has_square(b.white, t) || has_square(b.black, t)) {
        None
    } else {
        Some(
            Piece {
                color: if has_square(b.white, t) {
                    Color::White
                } else {
                    Color::Black
                },
                role: if has_square(b.pawns, t) {
                    BoardRole::Pawn
                } else if has_square(b.knights, t) {
                    BoardRole::Knight
                } else if has_square(b.bishops, t) {
                    BoardRole::Bishop
                } else if has_square(b.rooks, t) {
                    BoardRole::Rook
                } else if has_square(b.queens, t) {
                    BoardRole::Queen
                } else {
                    BoardRole::King
                },
            },
        )
    }
}

impl ChessMove {
    /// Whether the move takes a piece or a pawn.
    pub fn is_capture(&self) -> (r: bool)
        ensures
            r == (self.capture.is_some() || self.en_passant),
    {
        self.capture.is_some() || self.en_passant
    }
}

impl Board {
    /// The squares of one color.
    pub open spec fn spec_by_color(self, color: Color) -> u64 {
        match color {
            Color::White => self.white,
            Color::Black => self.black,
        }
    }

    /// The squares of one role.
    pub open spec fn spec_by_role(self, role: BoardRole) -> u64 {
        match role {
            BoardRole::Pawn => self.pawns,
            BoardRole::Knight => self.knights,
            BoardRole::Bishop => self.bishops,
            BoardRole::Rook => self.rooks,
            BoardRole::Queen => self.queens,
            BoardRole::King => self.kings,
        }
    }

    /// The squares that hold a piece.
    pub open spec fn spec_occupied(self) -> u64 {
        self.white | self.black
    }

    /// Whether the piece `piece` stands on `sq`.
    pub open spec fn has_piece(self, sq: int, piece: Piece) -> bool {
        has_square(self.spec_by_color(piece.color), sq) && has_square(
            self.spec_by_role(piece.role),
            sq,
        )
    }

    /// The squares of the pieces of one kind.
    pub open spec fn spec_by_piece(self, piece: Piece) -> u64 {
        self.spec_by_color(piece.color) & self.spec_by_role(piece.role)
    }

    /// The board with the square `sq` emptied.
    pub open spec fn without_piece(self, sq: int) -> Board {
        Board {
            white: without_square(self.white, sq),
            black: without_square(self.black, sq),
            pawns: without_square(self.pawns, sq),
            knights: without_square(self.knights, sq),
            bishops: without_square(self.bishops, sq),
            rooks: without_square(self.rooks, sq),
            queens: without_square(self.queens, sq),
            kings: without_square(self.kings, sq),
        }
    }

    /// The board with `piece` on the square `sq`, in place of what stood there.
    pub open spec fn with_piece(self, sq: int, piece: Piece) -> Board {
        let b = self.without_piece(sq);
        Board {
            white: if piece.color == Color::White {
                with_square(b.white, sq)
            } else {
                b.white
            },
            black: if piece.color == Color::Black {
                with_square(b.black, sq)
            } else {
                b.black
            },
            pawns: if piece.role == BoardRole::Pawn {
                with_square(b.pawns, sq)
            } else {
                b.pawns
            },
            knights: if piece.role == BoardRole::Knight {
                with_square(b.knights, sq)
            } else {
                b.knights
            },
            bishops: if piece.role == BoardRole::Bishop {
                with_square(b.bishops, sq)
            } else {
                b.bishops
            },
            rooks: if piece.role == BoardRole::Rook {
                with_square(b.rooks, sq)
            } else {
                b.rooks
            },
            queens: if piece.role == BoardRole::Queen {
                with_square(b.queens, sq)
            } else {
                b.queens
            },
            kings: if piece.role == BoardRole::King {
                with_square(b.kings, sq)
            } else {
                b.kings
            },
        }
    }

    /// The board that holds the pawns of `pawns` and nothing else.
    pub open spec fn of_pawns(pawns: PawnStructure) -> Board {
        Board {
            white: pawns.white,
            black: pawns.black,
            pawns: pawns.white | pawns.black,
            knights: 0,
            bishops: 0,
            rooks: 0,
            queens: 0,
            kings: 0,
        }
    }

    /// The pawns of the board.
    pub open spec fn spec_pawn_structure(self) -> PawnStructure {
        PawnStructure { white: self.pawns & self.white, black: self.pawns & self.black }
    }

    /// The empty board.
    pub fn empty() -> (r: Board)
        ensures
            r == (Board {
                white: 0,
                black: 0,
                pawns: 0,
                knights: 0,
                bishops: 0,
                rooks: 0,
                queens: 0,
                kings: 0,
            }),
    {
        Board { white: 0, black: 0, pawns: 0, knights: 0, bishops: 0, rooks: 0, queens: 0, kings: 0 }
    }

    /// The board that holds the pawns of `pawns` and nothing else.
    pub fn from_pawns(pawns: &PawnStructure) -> (r: Board)
        ensures
            r == Board::of_pawns(*pawns),
    {
        Board {
            white: pawns.white,
            black: pawns.black,
            pawns: pawns.white | pawns.black,
            knights: 0,
            bishops: 0,
            rooks: 0,
            queens: 0,
            kings: 0,
        }
    }

    /// The pawns of the board.
    pub fn pawn_structure(&self) -> (r: PawnStructure)
        ensures
            r == self.spec_pawn_structure(),
    {
        PawnStructure { white: self.pawns & self.white, black: self.pawns & self.black }
    }

    /// The squares that hold a piece.
    pub fn occupied(&self) -> (r: u64)
        ensures
            r == self.spec_occupied(),
    {
        self.white | self.black
    }

    /// The squares of one color.
    pub fn by_color(&self, color: Color) -> (r: u64)
        ensures
            r == self.spec_by_color(color),
    {
        match color {
            Color::White => self.white,
            Color::Black => self.black,
        }
    }

    /// The squares of one role.
    pub fn by_role(&self, role: BoardRole) -> (r: u64)
        ensures
            r == self.spec_by_role(role),
    {
        match role {
            BoardRole::Pawn => self.pawns,
            BoardRole::Knight => self.knights,
            BoardRole::Bishop => self.bishops,
            BoardRole::Rook => self.rooks,
            BoardRole::Queen => self.queens,
            BoardRole::King => self.kings,
        }
    }

    /// The squares of the pieces of one kind.
    pub fn by_piece(&self, piece: Piece) -> (r: u64)
        ensures
            r == self.spec_by_piece(piece),
            forall|t: int| has_square(r, t) == self.has_piece(t, piece),
    {
        proof {
            assert forall|t: int|
                has_square(self.spec_by_piece(piece), t) == self.has_piece(t, piece) by {
                lemma_union_intersection(
                    self.spec_by_color(piece.color),
                    self.spec_by_role(piece.role),
                    t,
                );
            }
        }
        self.by_color(piece.color) & self.by_role(piece.role)
    }

    /// The piece on the square `sq`, if there is one.
    pub fn piece_at(&self, sq: u8) -> (r: Option<Piece>)
        requires
            sq < 64,
        ensures
            r == standing(*self, sq as int),
    {
        let color = if contains(self.white, sq) {
            Color::White
        } else if contains(self.black, sq) {
            Color::Black
        } else {
            return None;
        };
        let role = if contains(self.pawns, sq) {
            BoardRole::Pawn
        } else if contains(self.knights, sq) {
            BoardRole::Knight
        } else if contains(self.bishops, sq) {
            BoardRole::Bishop
        } else if contains(self.rooks, sq) {
            BoardRole::Rook
        } else if contains(self.queens, sq) {
            BoardRole::Queen
        } else {
            BoardRole::King
        };
        Some(Piece { color, role })
    }

    /// Empties the square `sq`.
    pub fn discard_piece_at(&mut self, sq: u8)
        requires
            sq < 64,
        ensures
            *final(self) == old(self).without_piece(sq as int),
    {
        self.white = remove_square(self.white, sq);
        self.black = remove_square(self.black, sq);
        self.pawns = remove_square(self.pawns, sq);
        self.knights = remove_square(self.knights, sq);
        self.bishops = remove_square(self.bishops, sq);
        self.rooks = remove_square(self.rooks, sq);
        self.queens = remove_square(self.queens, sq);
        self.kings = remove_square(self.kings, sq);
    }

    /// Puts `piece` on the square `sq`, in place of what stood there.
    pub fn set_piece_at(&mut self, sq: u8, piece: Piece)
        requires
            sq < 64,
        ensures
            *final(self) == old(self).with_piece(sq as int, piece),
    {
        self.discard_piece_at(sq);
        match piece.color {
            Color::White => {
                self.white = add_square(self.white, sq);
            },
            Color::Black => {
                self.black = add_square(self.black, sq);
            },
        }
        match piece.role {
            BoardRole::Pawn => {
                self.pawns = add_square(self.pawns, sq);
            },
            BoardRole::Knight => {
                self.knights = add_square(self.knights, sq);
            },
            BoardRole::Bishop => {
                self.bishops = add_square(self.bishops, sq);
            },
            BoardRole::Rook => {
                self.rooks = add_square(self.rooks, sq);
            },
            BoardRole::Queen => {
                self.queens = add_square(self.queens, sq);
            },
            BoardRole::King => {
                self.kings = add_square(self.kings, sq);
            },
        }
    }
}

impl PawnStructure {
    /// The pawns of a board.
    pub fn from_board(board: &Board) -> (r: Self)
        ensures
            r == board.spec_pawn_structure(),
    {
        board.pawn_structure()
    }

    /// The board that holds these pawns and nothing else.
    pub fn to_board(&self) -> (r: Board)
        ensures
            r == Board::of_pawns(*self),
    {
        Board::from_pawns(self)
    }
}

} // verus!
