//! Material signatures: which pieces are on the board, and where the pawns stand.

pub mod children;
pub mod from_position;
pub mod hb_piece;
pub mod pawn_structure;
pub mod piece_counts;
pub mod progress;
pub mod symmetry;
pub mod text;
pub mod text_laws;

pub use hb_piece::{Color, HbPiece, HbPieceRole};
pub use pawn_structure::{PawnStep, PawnStructure};
pub use piece_counts::PieceCounts;

use crate::bitboard::square_count;
use crate::material_key::hb_piece::all_roles;
use vstd::prelude::*;

verus! {

/// The piece counts of both sides.
#[derive(Clone, Copy, Debug, PartialEq, Eq, Hash, Structural)]
pub struct CountsByColor {
    pub white: PieceCounts,
    pub black: PieceCounts,
}

impl CountsByColor {
    /// The counts of one side.
    pub open spec fn of(self, color: Color) -> PieceCounts {
        match color {
            Color::White => self.white,
            Color::Black => self.black,
        }
    }

    /// The counts with one entry replaced.
    pub open spec fn with_count(self, color: Color, role: HbPieceRole, value: u8) -> CountsByColor {
        match color {
            Color::White => CountsByColor {
                white: self.white.with_count(role, value),
                black: self.black,
            },
            Color::Black => CountsByColor {
                white: self.white,
                black: self.black.with_count(role, value),
            },
        }
    }

    /// The count of one role of one side.
    pub fn get(&self, color: Color, role: HbPieceRole) -> (r: u8)
        ensures
            r == self.of(color).of(role),
    {
        match color {
            Color::White => self.white.get(role),
            Color::Black => self.black.get(role),
        }
    }

    /// Replaces the count of one role of one side.
    pub fn set(&mut self, color: Color, role: HbPieceRole, value: u8)
        ensures
            *final(self) == old(self).with_count(color, role, value),
    {
        match color {
            Color::White => {
                self.white.set(role, value);
            },
            Color::Black => {
                self.black.set(role, value);
            },
        }
    }
}

/// Represents a material configuration, e.g. `KQvK`: the counts of the
/// pieces of both sides and the squares of their pawns.
#[derive(Clone, Copy, Debug, PartialEq, Eq, Hash, Structural)]
pub struct MaterialKey {
    pub pawns: PawnStructure,
    pub counts: CountsByColor,
}

/// The counts read as one number, the king's count in the highest place:
/// counts compare as their numbers do.
pub open spec fn counts_number(c: PieceCounts) -> int {
    ((((c.king as int * 256 + c.queen as int) * 256 + c.rook as int) * 256
        + c.light_bishop as int) * 256 + c.dark_bishop as int) * 256 + c.knight as int
}

/// The order of material keys: by the black pawns' squares, then by the
/// white pawns' squares, then the richer White first, then the richer Black
/// first.
pub open spec fn key_less(a: MaterialKey, b: MaterialKey) -> bool {
    if a.pawns.black != b.pawns.black {
        a.pawns.black < b.pawns.black
    } else if a.pawns.white != b.pawns.white {
        a.pawns.white < b.pawns.white
    } else if counts_number(a.counts.white) != counts_number(b.counts.white) {
        counts_number(a.counts.white) > counts_number(b.counts.white)
    } else {
        counts_number(a.counts.black) > counts_number(b.counts.black)
    }
}

/// The earlier of two keys; the first where neither comes before the other.
pub open spec fn lesser_key(a: MaterialKey, b: MaterialKey) -> MaterialKey {
    if key_less(b, a) {
        b
    } else {
        a
    }
}

impl MaterialKey {
    /// One king a side, no pawn on the first or eighth rank, no square with
    /// two pawns, and at most 255 pieces and pawns in all.
    pub open spec fn wf(self) -> bool {
        &&& self.counts.white.of(HbPieceRole::King) == 1
        &&& self.counts.black.of(HbPieceRole::King) == 1
        &&& self.pawns.wf()
        &&& self.spec_total_piece_count() <= 255
    }

    /// The number of pieces that are no pawns.
    pub open spec fn spec_non_pawn_piece_count(self) -> nat {
        self.counts.white.spec_total() + self.counts.black.spec_total()
    }

    /// The number of pieces and pawns.
    pub open spec fn spec_total_piece_count(self) -> nat {
        self.spec_non_pawn_piece_count() + square_count(self.pawns.spec_occupied())
    }

    /// The key of the same material with the sides exchanged: the board is
    /// mirrored top to bottom, which also exchanges the bishops' colors.
    pub open spec fn mirrored_sides(self) -> MaterialKey {
        MaterialKey {
            pawns: self.pawns.sides_flipped(),
            counts: CountsByColor {
                white: self.counts.black.bishops_swapped(),
                black: self.counts.white.bishops_swapped(),
            },
        }
    }

    /// The key of the same material with the board mirrored left to right,
    /// which also exchanges the bishops' colors.
    pub open spec fn mirrored_left_to_right(self) -> MaterialKey {
        MaterialKey {
            pawns: self.pawns.files_flipped(),
            counts: CountsByColor {
                white: self.counts.white.bishops_swapped(),
                black: self.counts.black.bishops_swapped(),
            },
        }
    }

    /// The canonical key of the same material: the earliest of the key, its
    /// two mirror images and the image under both mirrors.
    pub open spec fn normalized(self) -> MaterialKey {
        lesser_key(
            lesser_key(
                lesser_key(self, self.mirrored_sides()),
                self.mirrored_left_to_right(),
            ),
            self.mirrored_sides().mirrored_left_to_right(),
        )
    }

    /// A key is canonical when it is its own canonical key.
    pub open spec fn is_canonical(self) -> bool {
        self.normalized() == self
    }

    /// The pieces that are no pawns, White's first, each side's in the order
    /// king, queen, rook, dark bishop, light bishop, knight.
    pub open spec fn spec_pieces(self) -> Seq<HbPiece> {
        pieces_of_side(self.counts.white, Color::White, 6) + pieces_of_side(
            self.counts.black,
            Color::Black,
            6,
        )
    }

    /// The canonical key of the given counts and pawns.
    pub fn new(counts: CountsByColor, pawns: PawnStructure) -> (r: Self)
        ensures
            r == (MaterialKey { pawns, counts }).normalized(),
    {
        let key = Self { counts, pawns };
        key.into_normalized()
    }

    pub fn non_pawn_piece_count(&self) -> (r: u32)
        ensures
            r == self.spec_non_pawn_piece_count(),
    {
        self.counts.white.total_wide() + self.counts.black.total_wide()
    }

    pub fn total_piece_count(&self) -> (r: u32)
        ensures
            r == self.spec_total_piece_count(),
    {
        self.counts.white.total_wide() + self.counts.black.total_wide() + self.pawns.pawn_count()
    }

    /// Whether this key comes before `other` in the order of keys.
    pub fn precedes(&self, other: &Self) -> (r: bool)
        ensures
            r == key_less(*self, *other),
    {
        if self.pawns.black != other.pawns.black {
            self.pawns.black < other.pawns.black
        } else if self.pawns.white != other.pawns.white {
            self.pawns.white < other.pawns.white
        } else {
            let mine = number_of_counts(&self.counts.white);
            let theirs = number_of_counts(&other.counts.white);
            if mine != theirs {
                mine > theirs
            } else {
                number_of_counts(&self.counts.black) > number_of_counts(&other.counts.black)
            }
        }
    }

    /// Mirror the sides of the board (white-to-black and black-to-white).
    pub fn into_mirrored_sides(self) -> (r: Self)
        ensures
            r == self.mirrored_sides(),
    {
        let mut white = self.counts.black;
        let mut black = self.counts.white;
        white.swap_bishops();
        black.swap_bishops();
        Self { pawns: self.pawns.flip_sides(), counts: CountsByColor { white, black } }
    }

    /// Mirror the board left-to-right (kingside-to-queenside).
    pub fn into_mirrored_left_to_right(self) -> (r: Self)
        ensures
            r == self.mirrored_left_to_right(),
    {
        let mut white = self.counts.white;
        let mut black = self.counts.black;
        white.swap_bishops();
        black.swap_bishops();
        Self { pawns: self.pawns.flip_horizontal(), counts: CountsByColor { white, black } }
    }

    /// The canonical key of the same material.
    pub fn into_normalized(self) -> (r: Self)
        ensures
            r == self.normalized(),
    {
        let sides = self.into_mirrored_sides();
        let files = self.into_mirrored_left_to_right();
        let both = sides.into_mirrored_left_to_right();
        let mut best = self;
        if sides.precedes(&best) {
            best = sides;
        }
        if files.precedes(&best) {
            best = files;
        }
        if both.precedes(&best) {
            best = both;
        }
        best
    }

    pub fn has_pawns(&self) -> (r: bool)
        ensures
            r == (self.pawns.white != 0 || self.pawns.black != 0),
    {
        !(self.pawns.white == 0 && self.pawns.black == 0)
    }

    pub fn has_bishops(&self) -> (r: bool)
        ensures
            r == (self.counts.white.of(HbPieceRole::LightBishop) > 0 || self.counts.black.of(
                HbPieceRole::LightBishop,
            ) > 0 || self.counts.white.of(HbPieceRole::DarkBishop) > 0 || self.counts.black.of(
                HbPieceRole::DarkBishop,
            ) > 0),
    {
        self.counts.white.get(HbPieceRole::LightBishop) > 0 || self.counts.black.get(
            HbPieceRole::LightBishop,
        ) > 0 || self.counts.white.get(HbPieceRole::DarkBishop) > 0 || self.counts.black.get(
            HbPieceRole::DarkBishop,
        ) > 0
    }

    /// The squares of the pawns of one side.
    pub fn pawn_bitboard(&self, color: Color) -> (r: u64)
        ensures
            r == match color {
                Color::White => self.pawns.white,
                Color::Black => self.pawns.black,
            },
    {
        match color {
            Color::White => self.pawns.white,
            Color::Black => self.pawns.black,
        }
    }

    /// The pieces that are no pawns, in the order in which positions are
    /// numbered: White's first, each side's by role, equal pieces together.
    pub fn pieces(&self) -> (r: Vec<HbPiece>)
        ensures
            r@ == self.spec_pieces(),
    {
        let mut out: Vec<HbPiece> = Vec::new();
        push_pieces_of_side(&self.counts.white, Color::White, &mut out);
        push_pieces_of_side(&self.counts.black, Color::Black, &mut out);
        out
    }
}

/// `n` pieces of one role and color.
pub open spec fn repeated_piece(role: HbPieceRole, color: Color, n: nat) -> Seq<HbPiece> {
    Seq::new(n, |i: int| HbPiece { role, color })
}

/// The pieces of one side with one of the first `n` roles of the
/// enumeration order.
pub open spec fn pieces_of_side(counts: PieceCounts, color: Color, n: nat) -> Seq<HbPiece>
    decreases n,
{
    if n == 0 || n > 6 {
        Seq::empty()
    } else {
        pieces_of_side(counts, color, (n - 1) as nat) + repeated_piece(
            all_roles()[n - 1],
            color,
            counts.of(all_roles()[n - 1]) as nat,
        )
    }
}

fn push_pieces_of_side(counts: &PieceCounts, color: Color, out: &mut Vec<HbPiece>)
    ensures
        final(out)@ == old(out)@ + pieces_of_side(*counts, color, 6),
{
    let roles = HbPieceRole::all();
    let mut i: usize = 0;
    proof {
        assert(old(out)@ + pieces_of_side(*counts, color, 0) =~= old(out)@);
    }
    while i < 6
        invariant
            i <= 6,
            roles@ == all_roles(),
            out@ == old(out)@ + pieces_of_side(*counts, color, i as nat),
        decreases 6 - i,
    {
        let role = roles[i];
        let n = counts.get(role);
        let ghost before = out@;
        let mut j: u8 = 0;
        proof {
            assert(before + repeated_piece(role, color, 0) =~= before);
        }
        while j < n
            invariant
                j <= n,
                out@ == before + repeated_piece(role, color, j as nat),
            decreases n - j,
        {
            out.push(HbPiece { role, color });
            proof {
                assert((before + repeated_piece(role, color, j as nat)).push(
                    HbPiece { role, color },
                ) =~= before + repeated_piece(role, color, (j + 1) as nat));
            }
            j += 1;
        }
        proof {
            assert(out@ =~= old(out)@ + pieces_of_side(*counts, color, (i + 1) as nat));
        }
        i += 1;
    }
}

/// The counts read as one number.
pub fn number_of_counts(c: &PieceCounts) -> (r: u64)
    ensures
        r == counts_number(*c),
{
    ((((c.king as u64 * 256 + c.queen as u64) * 256 + c.rook as u64) * 256
        + c.light_bishop as u64) * 256 + c.dark_bishop as u64) * 256 + c.knight as u64
}

/// A number splits in one way into its last digit and the rest.
proof fn lemma_last_digit(x: int, y: int, x2: int, y2: int)
    requires
        x * 256 + y == x2 * 256 + y2,
        0 <= y < 256,
        0 <= y2 < 256,
    ensures
        x == x2,
        y == y2,
{
}

/// Counts with the same number are the same counts.
pub proof fn lemma_counts_number_injective(a: PieceCounts, b: PieceCounts)
    requires
        counts_number(a) == counts_number(b),
    ensures
        a == b,
{
    let a1 = a.king as int * 256 + a.queen as int;
    let b1 = b.king as int * 256 + b.queen as int;
    let a2 = a1 * 256 + a.rook as int;
    let b2 = b1 * 256 + b.rook as int;
    let a3 = a2 * 256 + a.light_bishop as int;
    let b3 = b2 * 256 + b.light_bishop as int;
    let a4 = a3 * 256 + a.dark_bishop as int;
    let b4 = b3 * 256 + b.dark_bishop as int;
    lemma_last_digit(a4, a.knight as int, b4, b.knight as int);
    lemma_last_digit(a3, a.dark_bishop as int, b3, b.dark_bishop as int);
    lemma_last_digit(a2, a.light_bishop as int, b2, b.light_bishop as int);
    lemma_last_digit(a1, a.rook as int, b1, b.rook as int);
    lemma_last_digit(a.king as int, a.queen as int, b.king as int, b.queen as int);
}

/// The order of keys is total and strict: of two different keys exactly one
/// comes first, and the order is transitive.
pub proof fn lemma_key_order(a: MaterialKey, b: MaterialKey, c: MaterialKey)
    ensures
        !key_less(a, a),
        a != b ==> (key_less(a, b) <==> !key_less(b, a)),
        a == b ==> !key_less(a, b),
        key_less(a, b) && key_less(b, c) ==> key_less(a, c),
{
    if counts_number(a.counts.white) == counts_number(b.counts.white) {
        lemma_counts_number_injective(a.counts.white, b.counts.white);
    }
    if counts_number(a.counts.black) == counts_number(b.counts.black) {
        lemma_counts_number_injective(a.counts.black, b.counts.black);
    }
}

} // verus!
