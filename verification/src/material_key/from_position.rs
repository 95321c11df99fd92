//! The material of a board.

use crate::bitboard::{count_squares, square_count, DARK_SQUARES, LIGHT_SQUARES};
use crate::material_key::hb_piece::Color;
use crate::material_key::pawn_structure::PawnStructure;
use crate::material_key::piece_counts::PieceCounts;
use crate::material_key::{CountsByColor, MaterialKey};
use crate::position::{Board, Position};
use vstd::prelude::*;

verus! {

/// The number of squares of a set, as a count of pieces.
pub open spec fn count_u8(bb: u64) -> u8 {
    square_count(bb) as u8
}

/// The counts of the pieces of one color on a board; a bishop counts by
/// the color of its square.
pub open spec fn counts_on(board: Board, color: Color) -> PieceCounts {
    let side = board.spec_by_color(color);
    PieceCounts {
        king: count_u8(board.kings & side),
        queen: count_u8(board.queens & side),
        rook: count_u8(board.rooks & side),
        light_bishop: count_u8(board.bishops & side & LIGHT_SQUARES),
        dark_bishop: count_u8(board.bishops & side & DARK_SQUARES),
        knight: count_u8(board.knights & side),
    }
}

/// The material on a board, as it stands.
pub open spec fn material_on(board: Board) -> MaterialKey {
    MaterialKey {
        pawns: board.spec_pawn_structure(),
        counts: CountsByColor {
            white: counts_on(board, Color::White),
            black: counts_on(board, Color::Black),
        },
    }
}

fn count_side(board: &Board, color: Color) -> (r: PieceCounts)
    ensures
        r == counts_on(*board, color),
{
    let side = board.by_color(color);
    PieceCounts {
        king: count_squares(board.kings & side) as u8,
        queen: count_squares(board.queens & side) as u8,
        rook: count_squares(board.rooks & side) as u8,
        light_bishop: count_squares(board.bishops & side & LIGHT_SQUARES) as u8,
        dark_bishop: count_squares(board.bishops & side & DARK_SQUARES) as u8,
        knight: count_squares(board.knights & side) as u8,
    }
}

impl MaterialKey {
    /// The canonical key of the material of a position.
    pub fn from_position(position: &Position) -> (r: Option<Self>)
        ensures
            r == Some(material_on(position.board).normalized()),
    {
        let counts = CountsByColor {
            white: count_side(&position.board, Color::White),
            black: count_side(&position.board, Color::Black),
        };
        Some(MaterialKey::new(counts, PawnStructure::from_board(&position.board)))
    }
}

} // verus!
