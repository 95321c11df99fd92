//! Where the pawns of both sides stand, and where they can stand one move later.

use crate::bitboard::{
    add_square, contains, count_squares, flip_horizontal, flip_horizontal_of, flip_vertical,
    flip_vertical_of, has_square, remove_square, square_count, with_square, without_square,
    BACKRANKS,
};
use crate::material_key::hb_piece::Color;
use vstd::prelude::*;

verus! {

/// The pawn structure of a position: the squares of the white and of the
/// black pawns.
#[derive(Clone, Copy, Debug, PartialEq, Eq, Hash, Structural)]
pub struct PawnStructure {
    pub white: u64,
    pub black: u64,
}

/// The ways in which one pawn changes a pawn structure. The pawn that moves
/// is always white; for a black pawn the structure is mirrored first.
#[derive(Clone, Copy, Debug, PartialEq, Eq, Structural)]
pub enum PawnStep {
    /// A pawn of either side is taken by a piece.
    Taken,
    /// One square forward, onto a square without a pawn.
    Push,
    /// Two squares forward from the second rank, over and onto squares
    /// without a pawn.
    DoublePush,
    /// A pawn takes the pawn diagonally to its right.
    TakePawnRight,
    /// A pawn takes the pawn diagonally to its left.
    TakePawnLeft,
    /// A pawn takes a piece diagonally to its right, on a square without a pawn.
    TakePieceRight,
    /// A pawn takes a piece diagonally to its left, on a square without a pawn.
    TakePieceLeft,
    /// A pawn leaves the seventh rank and the board: it promotes.
    Promote,
}

/// Whether a pawn on `sq` stands on the second to the sixth rank.
pub open spec fn on_middle_ranks(sq: int) -> bool {
    8 <= sq < 48
}

impl PawnStructure {
    /// No pawn on the first or the eighth rank, and no square with two pawns.
    pub open spec fn wf(self) -> bool {
        &&& (self.white | self.black) & BACKRANKS == 0
        &&& self.white & self.black == 0
    }

    /// The squares that hold a pawn.
    pub open spec fn spec_occupied(self) -> u64 {
        self.white | self.black
    }

    /// The structure seen from the other side: colors exchanged and the
    /// board mirrored top to bottom.
    pub open spec fn sides_flipped(self) -> PawnStructure {
        PawnStructure { white: flip_vertical_of(self.black), black: flip_vertical_of(self.white) }
    }

    /// The structure mirrored left to right.
    pub open spec fn files_flipped(self) -> PawnStructure {
        PawnStructure {
            white: flip_horizontal_of(self.white),
            black: flip_horizontal_of(self.black),
        }
    }

    /// The structure as the side `color` sees it.
    pub open spec fn seen_by(self, color: Color) -> PawnStructure {
        match color {
            Color::White => self,
            Color::Black => self.sides_flipped(),
        }
    }

    /// Whether the step `step` can be made from square `sq`.
    pub open spec fn step_applies(self, step: PawnStep, sq: int) -> bool {
        match step {
            PawnStep::Taken => has_square(self.white | self.black, sq),
            PawnStep::Push => on_middle_ranks(sq) && has_square(self.white, sq) && !has_square(
                self.white | self.black,
                sq + 8,
            ),
            PawnStep::DoublePush => 8 <= sq < 16 && has_square(self.white, sq) && !has_square(
                self.white | self.black,
                sq + 8,
            ) && !has_square(self.white | self.black, sq + 16),
            PawnStep::TakePawnRight => on_middle_ranks(sq) && sq % 8 != 7 && has_square(
                self.white,
                sq,
            ) && has_square(self.black, sq + 9),
            PawnStep::TakePawnLeft => on_middle_ranks(sq) && sq % 8 != 0 && has_square(
                self.white,
                sq,
            ) && has_square(self.black, sq + 7),
            PawnStep::TakePieceRight => on_middle_ranks(sq) && sq % 8 != 7 && has_square(
                self.white,
                sq,
            ) && !has_square(self.white | self.black, sq + 9),
            PawnStep::TakePieceLeft => on_middle_ranks(sq) && sq % 8 != 0 && has_square(
                self.white,
                sq,
            ) && !has_square(self.white | self.black, sq + 7),
            PawnStep::Promote => 48 <= sq < 56 && has_square(self.white, sq),
        }
    }

    /// The structure after the step `step` from square `sq`.
    pub open spec fn step_result(self, step: PawnStep, sq: int) -> PawnStructure {
        match step {
            PawnStep::Taken => PawnStructure {
                white: without_square(self.white, sq),
                black: without_square(self.black, sq),
            },
            PawnStep::Push => PawnStructure {
                white: with_square(without_square(self.white, sq), sq + 8),
                black: self.black,
            },
            PawnStep::DoublePush => PawnStructure {
                white: with_square(without_square(self.white, sq), sq + 16),
                black: self.black,
            },
            PawnStep::TakePawnRight => PawnStructure {
                white: with_square(without_square(self.white, sq), sq + 9),
                black: without_square(self.black, sq + 9),
            },
            PawnStep::TakePawnLeft => PawnStructure {
                white: with_square(without_square(self.white, sq), sq + 7),
                black: without_square(self.black, sq + 7),
            },
            PawnStep::TakePieceRight => PawnStructure {
                white: with_square(without_square(self.white, sq), sq + 9),
                black: self.black,
            },
            PawnStep::TakePieceLeft => PawnStructure {
                white: with_square(without_square(self.white, sq), sq + 7),
                black: self.black,
            },
            PawnStep::Promote => PawnStructure {
                white: without_square(self.white, sq),
                black: self.black,
            },
        }
    }

    /// The results of the step `step` from every square below `n` from which
    /// it can be made, by ascending square.
    pub open spec fn steps_below(self, step: PawnStep, n: nat) -> Seq<PawnStructure>
        decreases n,
    {
        if n == 0 {
            Seq::empty()
        } else if self.step_applies(step, n - 1) {
            self.steps_below(step, (n - 1) as nat).push(self.step_result(step, n - 1))
        } else {
            self.steps_below(step, (n - 1) as nat)
        }
    }

    /// The results of the step `step` from every square from which it can be made.
    pub open spec fn steps(self, step: PawnStep) -> Seq<PawnStructure> {
        self.steps_below(step, 64)
    }

    /// What the white pawns can do among pawns: pushes, double pushes, then
    /// captures of a pawn to the right and to the left.
    pub open spec fn one_sided_moves(self) -> Seq<PawnStructure> {
        self.steps(PawnStep::Push) + self.steps(PawnStep::DoublePush) + self.steps(
            PawnStep::TakePawnRight,
        ) + self.steps(PawnStep::TakePawnLeft)
    }

    /// The structures one move away that leave the piece counts alone: a
    /// pawn taken by a piece, then the pawn moves of White, then those of
    /// Black.
    pub open spec fn children_no_piece_change(self) -> Seq<PawnStructure> {
        self.steps(PawnStep::Taken) + self.one_sided_moves()
            + self.sides_flipped().one_sided_moves().map_values(
            |ps: PawnStructure| ps.sides_flipped(),
        )
    }

    /// The structures after a pawn of `color` took a piece without
    /// promoting, as `color` sees the board.
    pub open spec fn children_with_piece_capture(self, color: Color) -> Seq<PawnStructure> {
        self.seen_by(color).steps(PawnStep::TakePieceRight) + self.seen_by(color).steps(
            PawnStep::TakePieceLeft,
        )
    }

    /// The structures after a pawn of `color` promoted, as `color` sees the board.
    pub open spec fn children_with_promotion(self, color: Color) -> Seq<PawnStructure> {
        self.seen_by(color).steps(PawnStep::Promote)
    }

    pub fn new(white_pawns: u64, black_pawns: u64) -> (r: Self)
        ensures
            r.white == white_pawns,
            r.black == black_pawns,
    {
        Self { white: white_pawns, black: black_pawns }
    }

    /// The structure with the given pawns, unless a pawn stands on the first
    /// or the eighth rank or a square holds a pawn of each side.
    pub fn checked(white_pawns: u64, black_pawns: u64) -> (r: Option<Self>)
        ensures
            r.is_some() <==> (PawnStructure { white: white_pawns, black: black_pawns }).wf(),
            r.is_some() ==> r.unwrap() == (PawnStructure {
                white: white_pawns,
                black: black_pawns,
            }),
    {
        if (white_pawns | black_pawns) & BACKRANKS != 0 || white_pawns & black_pawns != 0 {
            None
        } else {
            Some(Self { white: white_pawns, black: black_pawns })
        }
    }

    pub fn occupied(&self) -> (r: u64)
        ensures
            r == self.spec_occupied(),
    {
        self.white | self.black
    }

    pub fn pawn_count(&self) -> (r: u32)
        ensures
            r == square_count(self.spec_occupied()),
            r <= 64,
    {
        count_squares(self.occupied())
    }

    pub fn is_symmetric_sides(&self) -> (r: bool)
        ensures
            r == (self.white == flip_vertical_of(self.black)),
    {
        self.white == flip_vertical(self.black)
    }

    pub fn is_symmetric_horizontal(&self) -> (r: bool)
        ensures
            r == (self.files_flipped() == *self),
    {
        self.white == flip_horizontal(self.white) && self.black == flip_horizontal(self.black)
    }

    pub fn flip_sides(&self) -> (r: Self)
        ensures
            r == self.sides_flipped(),
    {
        Self { white: flip_vertical(self.black), black: flip_vertical(self.white) }
    }

    pub fn flip_horizontal(&self) -> (r: Self)
        ensures
            r == self.files_flipped(),
    {
        Self { white: flip_horizontal(self.white), black: flip_horizontal(self.black) }
    }

    /// Whether the step `step` can be made from square `sq`.
    pub fn can_step(&self, step: PawnStep, sq: u8) -> (r: bool)
        requires
            sq < 64,
        ensures
            r == self.step_applies(step, sq as int),
    {
        let middle = 8 <= sq && sq < 48;
        let pawns = self.white | self.black;
        match step {
            PawnStep::Taken => contains(pawns, sq),
            PawnStep::Push => middle && contains(self.white, sq) && !contains(pawns, sq + 8),
            PawnStep::DoublePush => 8 <= sq && sq < 16 && contains(self.white, sq) && !contains(
                pawns,
                sq + 8,
            ) && !contains(pawns, sq + 16),
            PawnStep::TakePawnRight => middle && sq % 8 != 7 && contains(self.white, sq)
                && contains(self.black, sq + 9),
            PawnStep::TakePawnLeft => middle && sq % 8 != 0 && contains(self.white, sq)
                && contains(self.black, sq + 7),
            PawnStep::TakePieceRight => middle && sq % 8 != 7 && contains(self.white, sq)
                && !contains(pawns, sq + 9),
            PawnStep::TakePieceLeft => middle && sq % 8 != 0 && contains(self.white, sq)
                && !contains(pawns, sq + 7),
            PawnStep::Promote => 48 <= sq && sq < 56 && contains(self.white, sq),
        }
    }

    /// The structure after the step `step` from square `sq`.
    pub fn step_from(&self, step: PawnStep, sq: u8) -> (r: Self)
        requires
            sq < 64,
            self.step_applies(step, sq as int),
        ensures
            r == self.step_result(step, sq as int),
    {
        match step {
            PawnStep::Taken => Self {
                white: remove_square(self.white, sq),
                black: remove_square(self.black, sq),
            },
            PawnStep::Push => Self {
                white: add_square(remove_square(self.white, sq), sq + 8),
                black: self.black,
            },
            PawnStep::DoublePush => Self {
                white: add_square(remove_square(self.white, sq), sq + 16),
                black: self.black,
            },
            PawnStep::TakePawnRight => Self {
                white: add_square(remove_square(self.white, sq), sq + 9),
                black: remove_square(self.black, sq + 9),
            },
            PawnStep::TakePawnLeft => Self {
                white: add_square(remove_square(self.white, sq), sq + 7),
                black: remove_square(self.black, sq + 7),
            },
            PawnStep::TakePieceRight => Self {
                white: add_square(remove_square(self.white, sq), sq + 9),
                black: self.black,
            },
            PawnStep::TakePieceLeft => Self {
                white: add_square(remove_square(self.white, sq), sq + 7),
                black: self.black,
            },
            PawnStep::Promote => Self { white: remove_square(self.white, sq), black: self.black },
        }
    }

    /// Appends to `out` the results of the step `step` from every square
    /// from which it can be made, by ascending square; with `flip_back` each
    /// result is turned to the other side's view first.
    fn push_steps(&self, step: PawnStep, flip_back: bool, out: &mut Vec<PawnStructure>)
        ensures
            final(out)@ == old(out)@ + if flip_back {
                self.steps(step).map_values(|ps: PawnStructure| ps.sides_flipped())
            } else {
                self.steps(step)
            },
    {
        let ghost flipped = |ps: PawnStructure| ps.sides_flipped();
        let mut sq: u8 = 0;
        proof {
            assert(self.steps_below(step, 0).map_values(flipped) =~= Seq::empty());
            assert(old(out)@ + Seq::<PawnStructure>::empty() =~= old(out)@);
        }
        while sq < 64
            invariant
                sq <= 64,
                flipped == |ps: PawnStructure| ps.sides_flipped(),
                out@ == old(out)@ + if flip_back {
                    self.steps_below(step, sq as nat).map_values(flipped)
                } else {
                    self.steps_below(step, sq as nat)
                },
            decreases 64 - sq,
        {
            if self.can_step(step, sq) {
                let child = self.step_from(step, sq);
                let ghost before = self.steps_below(step, sq as nat);
                if flip_back {
                    out.push(child.flip_sides());
                    proof {
                        assert(before.push(child).map_values(flipped) =~= before.map_values(
                            flipped,
                        ).push(child.sides_flipped()));
                        assert((old(out)@ + before.map_values(flipped)).push(
                            child.sides_flipped(),
                        ) =~= old(out)@ + before.map_values(flipped).push(child.sides_flipped()));
                    }
                } else {
                    out.push(child);
                    proof {
                        assert((old(out)@ + before).push(child) =~= old(out)@ + before.push(
                            child,
                        ));
                    }
                }
            }
            sq += 1;
        }
    }

    /// Appends the pawn moves of White among pawns, see `one_sided_moves`.
    fn push_one_sided_moves(&self, flip_back: bool, out: &mut Vec<PawnStructure>)
        ensures
            final(out)@ == old(out)@ + if flip_back {
                self.one_sided_moves().map_values(|ps: PawnStructure| ps.sides_flipped())
            } else {
                self.one_sided_moves()
            },
    {
        let ghost flipped = |ps: PawnStructure| ps.sides_flipped();
        self.push_steps(PawnStep::Push, flip_back, out);
        self.push_steps(PawnStep::DoublePush, flip_back, out);
        self.push_steps(PawnStep::TakePawnRight, flip_back, out);
        self.push_steps(PawnStep::TakePawnLeft, flip_back, out);
        proof {
            let a = self.steps(PawnStep::Push);
            let b = self.steps(PawnStep::DoublePush);
            let c = self.steps(PawnStep::TakePawnRight);
            let d = self.steps(PawnStep::TakePawnLeft);
            if flip_back {
                assert((a + b + c + d).map_values(flipped) =~= a.map_values(flipped)
                    + b.map_values(flipped) + c.map_values(flipped) + d.map_values(flipped));
                assert(out@ =~= old(out)@ + (a + b + c + d).map_values(flipped));
            } else {
                assert(out@ =~= old(out)@ + (a + b + c + d));
            }
        }
    }

    /// Returns the pawn structures that can be reached from this pawn
    /// structure without changing the piece count.
    ///
    /// This includes:
    /// - A pawn taken by a piece (the pawn leaves the board).
    /// - Moving a pawn one or two squares forward.
    /// - A pawn taking a pawn.
    pub fn child_pawn_structures_no_piece_change(&self) -> (r: Vec<PawnStructure>)
        ensures
            r@ == self.children_no_piece_change(),
    {
        let mut out: Vec<PawnStructure> = Vec::new();
        self.push_steps(PawnStep::Taken, false, &mut out);
        self.push_one_sided_moves(false, &mut out);
        let mirrored = self.flip_sides();
        mirrored.push_one_sided_moves(true, &mut out);
        proof {
            assert(out@ =~= self.children_no_piece_change());
        }
        out
    }

    /// Returns the pawn structures that can be reached from this pawn
    /// structure when `color` makes a move by capturing a piece with a pawn
    /// without promoting a pawn. They are given as `color` sees the board.
    pub fn child_pawn_structures_with_piece_capture(&self, color: Color) -> (r: Vec<
        PawnStructure,
    >)
        ensures
            r@ == self.children_with_piece_capture(color),
    {
        let from_color_perspective = match color {
            Color::White => *self,
            Color::Black => self.flip_sides(),
        };
        let mut out: Vec<PawnStructure> = Vec::new();
        from_color_perspective.push_steps(PawnStep::TakePieceRight, false, &mut out);
        from_color_perspective.push_steps(PawnStep::TakePieceLeft, false, &mut out);
        proof {
            assert(out@ =~= self.children_with_piece_capture(color));
        }
        out
    }

    /// Returns the pawn structures that can be reached from this pawn
    /// structure when `color` promotes a pawn, as `color` sees the board.
    ///
    /// Since the backrank is always free of pawns, promoting with or without
    /// a capture gives the same set of child pawn structures.
    pub fn child_pawn_structures_with_promotion(&self, color: Color) -> (r: Vec<PawnStructure>)
        ensures
            r@ == self.children_with_promotion(color),
    {
        let from_color_perspective = match color {
            Color::White => *self,
            Color::Black => self.flip_sides(),
        };
        let mut out: Vec<PawnStructure> = Vec::new();
        from_color_perspective.push_steps(PawnStep::Promote, false, &mut out);
        proof {
            assert(out@ =~= self.children_with_promotion(color));
        }
        out
    }
}

} // verus!
