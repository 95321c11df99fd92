//! Why a move never leads back to the material it started from: pieces and
//! pawns only leave the board, and pawns only move forward.

use crate::bitboard::{
    count_below, has_square, lemma_with_square, lemma_without_square, square_count, with_square,
    without_square,
};
use crate::material_key::hb_piece::{capturable_roles, Color, HbPieceRole};
use crate::material_key::pawn_structure::{PawnStep, PawnStructure};
use crate::material_key::symmetry::{
    lemma_flips_keep_count, lemma_rank_count_flips, rank_count,
};
use crate::material_key::MaterialKey;
use vstd::prelude::*;

verus! {

/// How far the pawns of a set have come, counted from the first rank: the
/// sum of the ranks of its members.
pub open spec fn ranks_sum(bb: u64) -> int {
    rank_count(bb, 1) + 2 * rank_count(bb, 2) + 3 * rank_count(bb, 3) + 4 * rank_count(bb, 4) + 5
        * rank_count(bb, 5) + 6 * rank_count(bb, 6) + 7 * rank_count(bb, 7)
}

/// How far the pawns of a set have come, counted from the eighth rank.
pub open spec fn ranks_sum_down(bb: u64) -> int {
    7 * rank_count(bb, 0) + 6 * rank_count(bb, 1) + 5 * rank_count(bb, 2) + 4 * rank_count(bb, 3)
        + 3 * rank_count(bb, 4) + 2 * rank_count(bb, 5) + rank_count(bb, 6)
}

impl PawnStructure {
    /// The number of pawns, each side counted by itself.
    pub open spec fn pawn_total(self) -> int {
        (square_count(self.white) + square_count(self.black)) as int
    }

    /// How far the pawns have come: each white pawn counts by its rank
    /// from below, each black pawn by its rank from above.
    pub open spec fn advance(self) -> int {
        ranks_sum(self.white) + ranks_sum_down(self.black)
    }

    /// Whether `after` has fewer pawns than this structure or, with as
    /// many, pawns that have come further.
    pub open spec fn moved_on_to(self, after: PawnStructure) -> bool {
        after.pawn_total() < self.pawn_total() || (after.pawn_total() == self.pawn_total()
            && after.advance() > self.advance())
    }
}

/// The number of members after one was removed.
pub proof fn lemma_count_without(bb: u64, sq: int, n: nat)
    requires
        0 <= sq < 64,
        n <= 64,
    ensures
        count_below(without_square(bb, sq), n) == count_below(bb, n) - (if sq < n && has_square(
            bb,
            sq,
        ) {
            1int
        } else {
            0int
        }),
    decreases n,
{
    if n > 0 {
        lemma_count_without(bb, sq, (n - 1) as nat);
        lemma_without_square(bb, sq, n - 1);
    }
}

/// The number of members after one was added.
pub proof fn lemma_count_with(bb: u64, sq: int, n: nat)
    requires
        0 <= sq < 64,
        n <= 64,
    ensures
        count_below(with_square(bb, sq), n) == count_below(bb, n) + (if sq < n && !has_square(
            bb,
            sq,
        ) {
            1int
        } else {
            0int
        }),
    decreases n,
{
    if n > 0 {
        lemma_count_with(bb, sq, (n - 1) as nat);
        lemma_with_square(bb, sq, n - 1);
    }
}

/// The members on a rank after one member was removed.
pub proof fn lemma_rank_count_without(bb: u64, sq: int, rank: int)
    requires
        0 <= sq < 64,
        0 <= rank < 8,
    ensures
        rank_count(without_square(bb, sq), rank) == rank_count(bb, rank) - (if sq / 8 == rank
            && has_square(bb, sq) {
            1int
        } else {
            0int
        }),
{
    lemma_count_without(bb, sq, (8 * rank + 8) as nat);
    lemma_count_without(bb, sq, (8 * rank) as nat);
}

/// The members on a rank after one member was added.
pub proof fn lemma_rank_count_with(bb: u64, sq: int, rank: int)
    requires
        0 <= sq < 64,
        0 <= rank < 8,
    ensures
        rank_count(with_square(bb, sq), rank) == rank_count(bb, rank) + (if sq / 8 == rank
            && !has_square(bb, sq) {
            1int
        } else {
            0int
        }),
{
    lemma_count_with(bb, sq, (8 * rank + 8) as nat);
    lemma_count_with(bb, sq, (8 * rank) as nat);
}

/// The sums of ranks after one member was removed.
pub proof fn lemma_ranks_sum_without(bb: u64, sq: int)
    requires
        0 <= sq < 64,
    ensures
        ranks_sum(without_square(bb, sq)) == ranks_sum(bb) - (if has_square(bb, sq) {
            sq / 8
        } else {
            0int
        }),
        ranks_sum_down(without_square(bb, sq)) == ranks_sum_down(bb) - (if has_square(bb, sq) {
            7 - sq / 8
        } else {
            0int
        }),
        square_count(without_square(bb, sq)) == square_count(bb) - (if has_square(bb, sq) {
            1int
        } else {
            0int
        }),
{
    lemma_rank_count_without(bb, sq, 0);
    lemma_rank_count_without(bb, sq, 1);
    lemma_rank_count_without(bb, sq, 2);
    lemma_rank_count_without(bb, sq, 3);
    lemma_rank_count_without(bb, sq, 4);
    lemma_rank_count_without(bb, sq, 5);
    lemma_rank_count_without(bb, sq, 6);
    lemma_rank_count_without(bb, sq, 7);
    lemma_count_without(bb, sq, 64);
}

/// The sums of ranks after one member was added.
pub proof fn lemma_ranks_sum_with(bb: u64, sq: int)
    requires
        0 <= sq < 64,
    ensures
        ranks_sum(with_square(bb, sq)) == ranks_sum(bb) + (if !has_square(bb, sq) {
            sq / 8
        } else {
            0int
        }),
        ranks_sum_down(with_square(bb, sq)) == ranks_sum_down(bb) + (if !has_square(bb, sq) {
            7 - sq / 8
        } else {
            0int
        }),
        square_count(with_square(bb, sq)) == square_count(bb) + (if !has_square(bb, sq) {
            1int
        } else {
            0int
        }),
{
    lemma_rank_count_with(bb, sq, 0);
    lemma_rank_count_with(bb, sq, 1);
    lemma_rank_count_with(bb, sq, 2);
    lemma_rank_count_with(bb, sq, 3);
    lemma_rank_count_with(bb, sq, 4);
    lemma_rank_count_with(bb, sq, 5);
    lemma_rank_count_with(bb, sq, 6);
    lemma_rank_count_with(bb, sq, 7);
    lemma_count_with(bb, sq, 64);
}

impl PawnStructure {
    /// The mirror images of a pawn structure have as many pawns, and pawns
    /// that have come as far.
    pub proof fn lemma_flips_keep_progress(self)
        ensures
            self.sides_flipped().pawn_total() == self.pawn_total(),
            self.sides_flipped().advance() == self.advance(),
            self.files_flipped().pawn_total() == self.pawn_total(),
            self.files_flipped().advance() == self.advance(),
    {
        lemma_flips_keep_count(self.white);
        lemma_flips_keep_count(self.black);
        lemma_rank_count_flips(self.white);
        lemma_rank_count_flips(self.black);
    }

    /// After a pawn was taken, pushed or promoted, or took a pawn, there
    /// are fewer pawns or the pawns have come further.
    pub proof fn lemma_step_moves_on(self, step: PawnStep, sq: int)
        requires
            0 <= sq < 64,
            self.step_applies(step, sq),
            step != PawnStep::TakePieceRight,
            step != PawnStep::TakePieceLeft,
        ensures
            self.moved_on_to(self.step_result(step, sq)),
    {
        let w = self.white;
        let b = self.black;
        let lifted = without_square(w, sq);
        lemma_ranks_sum_without(w, sq);
        lemma_ranks_sum_without(b, sq);
        crate::bitboard::lemma_union_intersection(w, b, sq);
        match step {
            PawnStep::Taken => {},
            PawnStep::Push => {
                lemma_ranks_sum_with(lifted, sq + 8);
            },
            PawnStep::DoublePush => {
                lemma_ranks_sum_with(lifted, sq + 16);
            },
            PawnStep::TakePawnRight => {
                lemma_ranks_sum_with(lifted, sq + 9);
                lemma_ranks_sum_without(b, sq + 9);
            },
            PawnStep::TakePawnLeft => {
                lemma_ranks_sum_with(lifted, sq + 7);
                lemma_ranks_sum_without(b, sq + 7);
            },
            PawnStep::Promote => {},
            _ => {},
        }
    }

    /// Seen by a side and then by the same side again, the pawns stand as
    /// they do on the board.
    pub proof fn lemma_seen_twice(self, color: Color)
        ensures
            self.seen_by(color).seen_by(color) == self,
    {
        crate::bitboard::lemma_flips_are_involutions(self.white);
        crate::bitboard::lemma_flips_are_involutions(self.black);
    }

    /// No step puts two pawns on one square: a pawn that is pushed or takes
    /// a piece leaves as many pawns as there were, every other step one
    /// pawn less.
    pub proof fn lemma_step_keeps_pawns_apart(self, step: PawnStep, sq: int)
        requires
            0 <= sq < 64,
            self.white & self.black == 0,
            self.step_applies(step, sq),
        ensures
            self.step_result(step, sq).white & self.step_result(step, sq).black == 0,
            self.step_result(step, sq).pawn_total() == self.pawn_total() - match step {
                PawnStep::Push
                | PawnStep::DoublePush
                | PawnStep::TakePieceRight
                | PawnStep::TakePieceLeft => 0int,
                _ => 1int,
            },
    {
        let w = self.white;
        let b = self.black;
        let after = self.step_result(step, sq);
        let to = match step {
            PawnStep::Push => sq + 8,
            PawnStep::DoublePush => sq + 16,
            PawnStep::TakePawnRight | PawnStep::TakePieceRight => sq + 9,
            PawnStep::TakePawnLeft | PawnStep::TakePieceLeft => sq + 7,
            _ => sq,
        };
        let lifted = without_square(w, sq);
        crate::bitboard::lemma_union_intersection(w, b, sq);
        crate::bitboard::lemma_union_intersection(w, b, to);
        crate::bitboard::lemma_empty(sq);
        crate::bitboard::lemma_empty(to);
        assert(!(has_square(w, sq) && has_square(b, sq)));
        assert(!(has_square(w, to) && has_square(b, to)));
        lemma_without_square(w, sq, to);
        lemma_count_without(w, sq, 64);
        lemma_count_without(b, sq, 64);
        lemma_count_without(b, to, 64);
        lemma_count_with(lifted, to, 64);
        assert forall|t: int| 0 <= t < 64 implies has_square(after.white & after.black, t)
            == has_square(0, t) by {
            crate::bitboard::lemma_union_intersection(after.white, after.black, t);
            crate::bitboard::lemma_union_intersection(w, b, t);
            crate::bitboard::lemma_empty(t);
            assert(!(has_square(w, t) && has_square(b, t)));
            lemma_without_square(w, sq, t);
            lemma_without_square(b, sq, t);
            lemma_without_square(b, to, t);
            lemma_with_square(lifted, to, t);
        }
        crate::bitboard::lemma_extensional(after.white & after.black, 0);
    }

    /// Every member of `steps_below` is the result of its step from a
    /// square from which the step can be made.
    pub proof fn lemma_steps_below(self, step: PawnStep, n: nat, i: int)
        requires
            n <= 64,
            0 <= i < self.steps_below(step, n).len(),
        ensures
            exists|sq: int|
                0 <= sq < n && self.step_applies(step, sq) && self.steps_below(step, n)[i]
                    == #[trigger] self.step_result(step, sq),
        decreases n,
    {
        if n > 0 {
            let before = self.steps_below(step, (n - 1) as nat);
            if i < before.len() {
                self.lemma_steps_below(step, (n - 1) as nat, i);
                let sq = choose|sq: int|
                    0 <= sq < n - 1 && self.step_applies(step, sq) && before[i]
                        == #[trigger] self.step_result(step, sq);
                assert(self.steps_below(step, n)[i] == self.step_result(step, sq));
            } else {
                assert(self.steps_below(step, n)[i] == self.step_result(step, n - 1));
            }
        }
    }

    /// Every pawn move that leaves the piece counts alone moves the pawns on.
    pub proof fn lemma_no_piece_change_moves_on(self, i: int)
        requires
            0 <= i < self.children_no_piece_change().len(),
        ensures
            self.moved_on_to(self.children_no_piece_change()[i]),
    {
        let taken = self.steps(PawnStep::Taken);
        let own = self.one_sided_moves();
        let mirrored = self.sides_flipped();
        let theirs = mirrored.one_sided_moves();
        let child = self.children_no_piece_change()[i];
        if i < taken.len() {
            self.lemma_steps_below(PawnStep::Taken, 64, i);
            let sq = choose|sq: int|
                0 <= sq < 64 && self.step_applies(PawnStep::Taken, sq) && taken[i]
                    == #[trigger] self.step_result(PawnStep::Taken, sq);
            self.lemma_step_moves_on(PawnStep::Taken, sq);
        } else if i < taken.len() + own.len() {
            self.lemma_one_sided_moves_on(i - taken.len());
        } else {
            let j = i - taken.len() - own.len();
            mirrored.lemma_one_sided_moves_on(j);
            self.lemma_flips_keep_progress();
            theirs[j].lemma_flips_keep_progress();
            assert(child == theirs[j].sides_flipped());
        }
    }

    /// Every push and every capture of a pawn by a pawn moves the pawns on.
    pub proof fn lemma_one_sided_moves_on(self, i: int)
        requires
            0 <= i < self.one_sided_moves().len(),
        ensures
            self.moved_on_to(self.one_sided_moves()[i]),
    {
        let a = self.steps(PawnStep::Push);
        let b = self.steps(PawnStep::DoublePush);
        let c = self.steps(PawnStep::TakePawnRight);
        let d = self.steps(PawnStep::TakePawnLeft);
        let (step, j) = if i < a.len() {
            (PawnStep::Push, i)
        } else if i < a.len() + b.len() {
            (PawnStep::DoublePush, i - a.len())
        } else if i < a.len() + b.len() + c.len() {
            (PawnStep::TakePawnRight, i - a.len() - b.len())
        } else {
            (PawnStep::TakePawnLeft, i - a.len() - b.len() - c.len())
        };
        assert(self.one_sided_moves()[i] == self.steps(step)[j]);
        self.lemma_steps_below(step, 64, j);
        let sq = choose|sq: int|
            0 <= sq < 64 && self.step_applies(step, sq) && self.steps(step)[j]
                == #[trigger] self.step_result(step, sq);
        self.lemma_step_moves_on(step, sq);
    }

    /// After a promotion there are fewer pawns than before.
    pub proof fn lemma_promotion_moves_on(self, color: Color, i: int)
        requires
            0 <= i < self.children_with_promotion(color).len(),
        ensures
            self.children_with_promotion(color)[i].pawn_total() < self.pawn_total(),
    {
        let seen = self.seen_by(color);
        seen.lemma_steps_below(PawnStep::Promote, 64, i);
        let sq = choose|sq: int|
            0 <= sq < 64 && seen.step_applies(PawnStep::Promote, sq) && seen.steps(
                PawnStep::Promote,
            )[i] == #[trigger] seen.step_result(PawnStep::Promote, sq);
        lemma_ranks_sum_without(seen.white, sq);
        self.lemma_flips_keep_progress();
    }
}

impl MaterialKey {
    /// The mirror images of a key have as many pieces, as many pawns, and
    /// pawns that have come as far.
    pub proof fn lemma_mirrors_keep_progress(self)
        ensures
            self.mirrored_sides().spec_non_pawn_piece_count() == self.spec_non_pawn_piece_count(),
            self.mirrored_sides().pawns.pawn_total() == self.pawns.pawn_total(),
            self.mirrored_sides().pawns.advance() == self.pawns.advance(),
            self.mirrored_left_to_right().spec_non_pawn_piece_count()
                == self.spec_non_pawn_piece_count(),
            self.mirrored_left_to_right().pawns.pawn_total() == self.pawns.pawn_total(),
            self.mirrored_left_to_right().pawns.advance() == self.pawns.advance(),
    {
        self.pawns.lemma_flips_keep_progress();
    }

    /// The canonical key has as many pieces, as many pawns, and pawns that
    /// have come as far.
    pub proof fn lemma_normalized_keeps_progress(self)
        ensures
            self.normalized().spec_non_pawn_piece_count() == self.spec_non_pawn_piece_count(),
            self.normalized().pawns.pawn_total() == self.pawns.pawn_total(),
            self.normalized().pawns.advance() == self.pawns.advance(),
    {
        self.lemma_mirrors_keep_progress();
        self.mirrored_sides().lemma_mirrors_keep_progress();
        self.lemma_normalized_is_image();
    }

    /// What sets a key apart from the keys one move away: the number of
    /// pieces, the number of pawns, or how far the pawns have come.
    pub open spec fn progressed_to(self, after: MaterialKey) -> bool {
        after.spec_non_pawn_piece_count() != self.spec_non_pawn_piece_count()
            || after.pawns.pawn_total() != self.pawns.pawn_total() || after.pawns.advance()
            != self.pawns.advance()
    }

    /// A capture leaves one piece less.
    pub proof fn lemma_capture_counts(self, color: Color, pawns: PawnStructure, role: HbPieceRole)
        requires
            self.after_capture(color, pawns, role).is_some(),
        ensures
            self.after_capture(color, pawns, role).unwrap().spec_non_pawn_piece_count()
                == self.spec_non_pawn_piece_count() - 1,
            self.after_capture(color, pawns, role).unwrap().pawns == pawns,
    {
    }

    /// Every member of `captures_at` is the key after a capture.
    pub proof fn lemma_captures_at(self, color: Color, pawns: PawnStructure, n: nat, i: int)
        requires
            0 <= i < self.captures_at(color, pawns, n).len(),
        ensures
            self.captures_at(color, pawns, n)[i].spec_non_pawn_piece_count()
                == self.spec_non_pawn_piece_count() - 1,
            self.captures_at(color, pawns, n)[i].pawns == pawns,
        decreases n,
    {
        if n == 0 || n > 5 {
        } else {
            let before = self.captures_at(color, pawns, (n - 1) as nat);
            if i < before.len() {
                self.lemma_captures_at(color, pawns, (n - 1) as nat, i);
                match self.after_capture(color, pawns, capturable_roles()[n - 1]) {
                    Some(key) => {
                        assert(before.push(key)[i] == before[i]);
                    },
                    None => {},
                }
            } else {
                self.lemma_capture_counts(color, pawns, capturable_roles()[n - 1]);
            }
        }
    }

    /// Every member of `captures_over` has one piece less.
    pub proof fn lemma_captures_over(
        self,
        color: Color,
        structures: Seq<PawnStructure>,
        m: nat,
        i: int,
    )
        requires
            0 <= i < self.captures_over(color, structures, m).len(),
        ensures
            self.captures_over(color, structures, m)[i].spec_non_pawn_piece_count()
                == self.spec_non_pawn_piece_count() - 1,
        decreases m,
    {
        if m == 0 || m > structures.len() {
        } else {
            let before = self.captures_over(color, structures, (m - 1) as nat);
            if i < before.len() {
                self.lemma_captures_over(color, structures, (m - 1) as nat, i);
            } else {
                self.lemma_captures_at(color, structures[m - 1], 5, i - before.len());
            }
        }
    }

    /// Every member of `promotions_at` has one piece more, or as many
    /// pieces and the pawns `pawns`.
    pub proof fn lemma_promotions_at(self, color: Color, pawns: PawnStructure, n: nat, i: int)
        requires
            self.wf(),
            0 <= i < self.promotions_at(color, pawns, n).len(),
        ensures
            self.promotions_at(color, pawns, n)[i].spec_non_pawn_piece_count()
                == self.spec_non_pawn_piece_count() + 1 || (self.promotions_at(
                color,
                pawns,
                n,
            )[i].spec_non_pawn_piece_count() == self.spec_non_pawn_piece_count()
                && self.promotions_at(color, pawns, n)[i].pawns == pawns),
        decreases n,
    {
        if n == 0 || n > 5 {
        } else {
            let before = self.promotions_at(color, pawns, (n - 1) as nat);
            let role = capturable_roles()[n - 1];
            let promoted = self.after_promotion(color, pawns, role);
            self.lemma_counts_below_limit();
            assert(self.counts.of(color).of(role) < 255);
            assert(promoted.spec_non_pawn_piece_count() == self.spec_non_pawn_piece_count() + 1);
            if i < before.len() {
                self.lemma_promotions_at(color, pawns, (n - 1) as nat, i);
            } else if i == before.len() {
            } else {
                promoted.lemma_captures_at(color, pawns, 5, i - before.len() - 1);
            }
        }
    }

    /// Every member of `promotions_over` has one piece more, or as many
    /// pieces and one of the pawn structures.
    pub proof fn lemma_promotions_over(
        self,
        color: Color,
        structures: Seq<PawnStructure>,
        m: nat,
        i: int,
    )
        requires
            self.wf(),
            0 <= i < self.promotions_over(color, structures, m).len(),
        ensures
            self.promotions_over(color, structures, m)[i].spec_non_pawn_piece_count()
                == self.spec_non_pawn_piece_count() + 1 || (self.promotions_over(
                color,
                structures,
                m,
            )[i].spec_non_pawn_piece_count() == self.spec_non_pawn_piece_count() && exists|
                j: int,
            |
                0 <= j < structures.len() && self.promotions_over(color, structures, m)[i].pawns
                    == #[trigger] structures[j]),
        decreases m,
    {
        if m == 0 || m > structures.len() {
        } else {
            let before = self.promotions_over(color, structures, (m - 1) as nat);
            if i < before.len() {
                self.lemma_promotions_over(color, structures, (m - 1) as nat, i);
            } else {
                self.lemma_promotions_at(color, structures[m - 1], 5, i - before.len());
                let key = self.promotions_over(color, structures, m)[i];
                if key.spec_non_pawn_piece_count() == self.spec_non_pawn_piece_count() {
                    assert(key.pawns == structures[m - 1]);
                }
            }
        }
    }

    /// Every key reached by a move of `color` that changes the piece
    /// counts differs from this key in its pieces or its pawns.
    pub proof fn lemma_children_by_progress(self, color: Color, i: int)
        requires
            self.wf(),
            0 <= i < self.children_by(color).len(),
        ensures
            self.progressed_to(self.children_by(color)[i]),
    {
        let capture_structures = self.capture_structures(color);
        let promotion_structures = self.promotion_structures(color);
        let captures = self.captures_over(color, capture_structures, capture_structures.len());
        if i < captures.len() {
            self.lemma_captures_over(color, capture_structures, capture_structures.len(), i);
        } else {
            let k = i - captures.len();
            self.lemma_promotions_over(
                color,
                promotion_structures,
                promotion_structures.len(),
                k,
            );
            let key = self.children_by(color)[i];
            if key.spec_non_pawn_piece_count() == self.spec_non_pawn_piece_count() {
                let j = choose|j: int|
                    0 <= j < promotion_structures.len() && key.pawns
                        == #[trigger] promotion_structures[j];
                self.pawns.lemma_promotion_moves_on(color, j);
                self.pawns.children_with_promotion(color)[j].lemma_flips_keep_progress();
            }
        }
    }

    /// Every key one move away, before it is made canonical, differs from
    /// this key in its pieces or its pawns.
    pub proof fn lemma_raw_children_progress(self, i: int)
        requires
            self.wf(),
            0 <= i < self.raw_children().len(),
        ensures
            self.progressed_to(self.raw_children()[i]),
    {
        let moved = self.pawns.children_no_piece_change().map_values(
            |ps: PawnStructure| self.with_pawns(ps),
        );
        let white = self.children_by(Color::White);
        if i < moved.len() {
            self.pawns.lemma_no_piece_change_moves_on(i);
        } else if i < moved.len() + white.len() {
            self.lemma_children_by_progress(Color::White, i - moved.len());
        } else {
            self.lemma_children_by_progress(Color::Black, i - moved.len() - white.len());
        }
    }

    /// No move leads to the material it started from: a key is none of
    /// the keys one move away from it.
    pub proof fn lemma_child_is_another_key(self, child: MaterialKey)
        requires
            self.wf(),
            self.is_child(child),
        ensures
            child != self,
    {
        let i = choose|i: int|
            0 <= i < self.raw_children().len() && child == (
            #[trigger] self.raw_children()[i]).normalized();
        self.lemma_raw_children_progress(i);
        self.raw_children()[i].lemma_normalized_keeps_progress();
    }
}

} // verus!
