//! What the mirror images of a key have in common with the key.

use crate::bitboard::{
    count_below, flip_horizontal_of, flip_vertical_of, has_square, lemma_flip_horizontal,
    lemma_flip_vertical, mirror_file, mirror_rank, square_count, BACKRANKS,
};
use crate::material_key::pawn_structure::PawnStructure;
use crate::material_key::{lemma_key_order, lesser_key, MaterialKey};
use vstd::prelude::*;

verus! {

/// Number of members of `bb` on the rank `rank`.
pub open spec fn rank_count(bb: u64, rank: int) -> int {
    count_below(bb, (8 * rank + 8) as nat) - count_below(bb, (8 * rank) as nat)
}

proof fn lemma_rank_count(bb: u64, rank: int)
    requires
        0 <= rank < 8,
    ensures
        rank_count(bb, rank) == (if has_square(bb, 8 * rank) {
            1int
        } else {
            0int
        }) + (if has_square(bb, 8 * rank + 1) {
            1int
        } else {
            0int
        }) + (if has_square(bb, 8 * rank + 2) {
            1int
        } else {
            0int
        }) + (if has_square(bb, 8 * rank + 3) {
            1int
        } else {
            0int
        }) + (if has_square(bb, 8 * rank + 4) {
            1int
        } else {
            0int
        }) + (if has_square(bb, 8 * rank + 5) {
            1int
        } else {
            0int
        }) + (if has_square(bb, 8 * rank + 6) {
            1int
        } else {
            0int
        }) + (if has_square(bb, 8 * rank + 7) {
            1int
        } else {
            0int
        }),
{
    reveal_with_fuel(count_below, 9);
}

proof fn lemma_count_by_ranks(bb: u64)
    ensures
        square_count(bb) == rank_count(bb, 0) + rank_count(bb, 1) + rank_count(bb, 2)
            + rank_count(bb, 3) + rank_count(bb, 4) + rank_count(bb, 5) + rank_count(bb, 6)
            + rank_count(bb, 7),
{
    lemma_count_grows(bb, 0, 8);
    lemma_count_grows(bb, 8, 16);
    lemma_count_grows(bb, 16, 24);
    lemma_count_grows(bb, 24, 32);
    lemma_count_grows(bb, 32, 40);
    lemma_count_grows(bb, 40, 48);
    lemma_count_grows(bb, 48, 56);
    lemma_count_grows(bb, 56, 64);
}

/// A count over fewer squares is no larger.
pub proof fn lemma_count_grows(bb: u64, m: nat, n: nat)
    requires
        m <= n,
    ensures
        count_below(bb, m) <= count_below(bb, n),
    decreases n - m,
{
    if m < n {
        lemma_count_grows(bb, m, (n - 1) as nat);
    }
}

proof fn lemma_rank_count_flip_horizontal(bb: u64, rank: int)
    requires
        0 <= rank < 8,
    ensures
        rank_count(flip_horizontal_of(bb), rank) == rank_count(bb, rank),
{
    lemma_rank_count(bb, rank);
    lemma_rank_count(flip_horizontal_of(bb), rank);
    lemma_flip_horizontal(bb, 8 * rank);
    lemma_flip_horizontal(bb, 8 * rank + 1);
    lemma_flip_horizontal(bb, 8 * rank + 2);
    lemma_flip_horizontal(bb, 8 * rank + 3);
    lemma_flip_horizontal(bb, 8 * rank + 4);
    lemma_flip_horizontal(bb, 8 * rank + 5);
    lemma_flip_horizontal(bb, 8 * rank + 6);
    lemma_flip_horizontal(bb, 8 * rank + 7);
    assert(mirror_file(8 * rank) == 8 * rank + 7);
    assert(mirror_file(8 * rank + 1) == 8 * rank + 6);
    assert(mirror_file(8 * rank + 2) == 8 * rank + 5);
    assert(mirror_file(8 * rank + 3) == 8 * rank + 4);
    assert(mirror_file(8 * rank + 4) == 8 * rank + 3);
    assert(mirror_file(8 * rank + 5) == 8 * rank + 2);
    assert(mirror_file(8 * rank + 6) == 8 * rank + 1);
    assert(mirror_file(8 * rank + 7) == 8 * rank);
}

proof fn lemma_rank_count_flip_vertical(bb: u64, rank: int)
    requires
        0 <= rank < 8,
    ensures
        rank_count(flip_vertical_of(bb), rank) == rank_count(bb, 7 - rank),
{
    lemma_rank_count(bb, 7 - rank);
    lemma_rank_count(flip_vertical_of(bb), rank);
    lemma_flip_vertical(bb, 8 * rank);
    lemma_flip_vertical(bb, 8 * rank + 1);
    lemma_flip_vertical(bb, 8 * rank + 2);
    lemma_flip_vertical(bb, 8 * rank + 3);
    lemma_flip_vertical(bb, 8 * rank + 4);
    lemma_flip_vertical(bb, 8 * rank + 5);
    lemma_flip_vertical(bb, 8 * rank + 6);
    lemma_flip_vertical(bb, 8 * rank + 7);
    assert(mirror_rank(8 * rank) == 8 * (7 - rank));
    assert(mirror_rank(8 * rank + 1) == 8 * (7 - rank) + 1);
    assert(mirror_rank(8 * rank + 2) == 8 * (7 - rank) + 2);
    assert(mirror_rank(8 * rank + 3) == 8 * (7 - rank) + 3);
    assert(mirror_rank(8 * rank + 4) == 8 * (7 - rank) + 4);
    assert(mirror_rank(8 * rank + 5) == 8 * (7 - rank) + 5);
    assert(mirror_rank(8 * rank + 6) == 8 * (7 - rank) + 6);
    assert(mirror_rank(8 * rank + 7) == 8 * (7 - rank) + 7);
}

/// The members of a mirror image, rank by rank.
pub proof fn lemma_rank_count_flips(bb: u64)
    ensures
        forall|rank: int|
            0 <= rank < 8 ==> #[trigger] rank_count(flip_vertical_of(bb), rank) == rank_count(
                bb,
                7 - rank,
            ),
        forall|rank: int|
            0 <= rank < 8 ==> #[trigger] rank_count(flip_horizontal_of(bb), rank) == rank_count(
                bb,
                rank,
            ),
{
    assert forall|rank: int| 0 <= rank < 8 implies #[trigger] rank_count(
        flip_vertical_of(bb),
        rank,
    ) == rank_count(bb, 7 - rank) by {
        lemma_rank_count_flip_vertical(bb, rank);
    }
    assert forall|rank: int| 0 <= rank < 8 implies #[trigger] rank_count(
        flip_horizontal_of(bb),
        rank,
    ) == rank_count(bb, rank) by {
        lemma_rank_count_flip_horizontal(bb, rank);
    }
}

/// A mirror image of a set has as many squares as the set.
pub proof fn lemma_flips_keep_count(bb: u64)
    ensures
        square_count(flip_vertical_of(bb)) == square_count(bb),
        square_count(flip_horizontal_of(bb)) == square_count(bb),
{
    lemma_count_by_ranks(bb);
    lemma_count_by_ranks(flip_vertical_of(bb));
    lemma_count_by_ranks(flip_horizontal_of(bb));
    lemma_rank_count_flip_vertical(bb, 0);
    lemma_rank_count_flip_vertical(bb, 1);
    lemma_rank_count_flip_vertical(bb, 2);
    lemma_rank_count_flip_vertical(bb, 3);
    lemma_rank_count_flip_vertical(bb, 4);
    lemma_rank_count_flip_vertical(bb, 5);
    lemma_rank_count_flip_vertical(bb, 6);
    lemma_rank_count_flip_vertical(bb, 7);
    lemma_rank_count_flip_horizontal(bb, 0);
    lemma_rank_count_flip_horizontal(bb, 1);
    lemma_rank_count_flip_horizontal(bb, 2);
    lemma_rank_count_flip_horizontal(bb, 3);
    lemma_rank_count_flip_horizontal(bb, 4);
    lemma_rank_count_flip_horizontal(bb, 5);
    lemma_rank_count_flip_horizontal(bb, 6);
    lemma_rank_count_flip_horizontal(bb, 7);
}

impl PawnStructure {
    /// The mirror images of a valid pawn structure are valid, and have as
    /// many pawns.
    pub proof fn lemma_flips_keep_wf(self)
        ensures
            self.wf() ==> self.sides_flipped().wf() && self.files_flipped().wf(),
            square_count(self.sides_flipped().spec_occupied()) == square_count(
                self.spec_occupied(),
            ),
            square_count(self.files_flipped().spec_occupied()) == square_count(
                self.spec_occupied(),
            ),
    {
        let w = self.white;
        let b = self.black;
        assert((w | b) & BACKRANKS == 0 ==> (flip_vertical_of(b) | flip_vertical_of(w)) & BACKRANKS
            == 0) by (bit_vector);
        assert(w & b == 0 ==> flip_vertical_of(b) & flip_vertical_of(w) == 0) by (bit_vector);
        assert((w | b) & BACKRANKS == 0 ==> (flip_horizontal_of(w) | flip_horizontal_of(b))
            & BACKRANKS == 0) by (bit_vector);
        assert(w & b == 0 ==> flip_horizontal_of(w) & flip_horizontal_of(b) == 0) by (bit_vector);
        assert(flip_vertical_of(b) | flip_vertical_of(w) == flip_vertical_of(w | b))
            by (bit_vector);
        assert(flip_horizontal_of(w) | flip_horizontal_of(b) == flip_horizontal_of(w | b))
            by (bit_vector);
        lemma_flips_keep_count(w | b);
    }
}

impl MaterialKey {
    /// The mirror images of a valid key are valid.
    pub proof fn lemma_mirrors_keep_wf(self)
        requires
            self.wf(),
        ensures
            self.mirrored_sides().wf(),
            self.mirrored_left_to_right().wf(),
    {
        self.pawns.lemma_flips_keep_wf();
    }

    /// The canonical key is the key or one of its mirror images.
    pub proof fn lemma_normalized_is_image(self)
        ensures
            self.normalized() == self || self.normalized() == self.mirrored_sides()
                || self.normalized() == self.mirrored_left_to_right() || self.normalized()
                == self.mirrored_sides().mirrored_left_to_right(),
    {
    }

    /// The canonical key of a valid key is valid.
    pub proof fn lemma_normalized_wf(self)
        requires
            self.wf(),
        ensures
            self.normalized().wf(),
    {
        self.lemma_mirrors_keep_wf();
        self.mirrored_sides().lemma_mirrors_keep_wf();
    }

    /// Mirroring twice gives the key back, and the two mirrors commute.
    pub proof fn lemma_mirrors_are_involutions(self)
        ensures
            self.mirrored_sides().mirrored_sides() == self,
            self.mirrored_left_to_right().mirrored_left_to_right() == self,
            self.mirrored_sides().mirrored_left_to_right()
                == self.mirrored_left_to_right().mirrored_sides(),
    {
        crate::bitboard::lemma_flips_are_involutions(self.pawns.white);
        crate::bitboard::lemma_flips_are_involutions(self.pawns.black);
    }

    /// The canonical key is canonical: making it canonical again changes nothing.
    pub proof fn lemma_normalized_canonical(self)
        ensures
            self.normalized().is_canonical(),
    {
        let a = self;
        let b = self.mirrored_sides();
        let c = self.mirrored_left_to_right();
        let d = self.mirrored_sides().mirrored_left_to_right();
        a.lemma_mirrors_are_involutions();
        b.lemma_mirrors_are_involutions();
        c.lemma_mirrors_are_involutions();
        d.lemma_mirrors_are_involutions();
        let n = self.normalized();
        lemma_least_of_four(a, b, c, d);
        // the images of each of the four are the same four keys
        if n == a {
            lemma_least_is_least(a, b, c, d, a);
        } else if n == b {
            lemma_least_is_least(b, a, d, c, b);
        } else if n == c {
            lemma_least_is_least(c, d, a, b, c);
        } else {
            lemma_least_is_least(d, c, b, a, d);
        }
    }
}

/// The least of four keys, taken as `normalized` takes it.
pub open spec fn least_of_four(a: MaterialKey, b: MaterialKey, c: MaterialKey, d: MaterialKey)
    -> MaterialKey {
    lesser_key(lesser_key(lesser_key(a, b), c), d)
}

proof fn lemma_least_of_four(a: MaterialKey, b: MaterialKey, c: MaterialKey, d: MaterialKey)
    ensures
        ({
            let n = least_of_four(a, b, c, d);
            &&& (n == a || n == b || n == c || n == d)
            &&& !crate::material_key::key_less(a, n)
            &&& !crate::material_key::key_less(b, n)
            &&& !crate::material_key::key_less(c, n)
            &&& !crate::material_key::key_less(d, n)
        }),
{
    let ab = lesser_key(a, b);
    let abc = lesser_key(ab, c);
    let n = lesser_key(abc, d);
    lemma_key_order(a, b, ab);
    lemma_key_order(b, a, ab);
    lemma_key_order(a, ab, abc);
    lemma_key_order(b, ab, abc);
    lemma_key_order(c, ab, abc);
    lemma_key_order(a, abc, n);
    lemma_key_order(b, abc, n);
    lemma_key_order(c, abc, n);
    lemma_key_order(d, abc, n);
    lemma_key_order(a, ab, n);
    lemma_key_order(b, ab, n);
    lemma_key_order(ab, abc, n);
    lemma_key_order(a, c, n);
    lemma_key_order(b, c, n);
    lemma_key_order(a, d, n);
    lemma_key_order(b, d, n);
    lemma_key_order(c, d, n);
    lemma_key_order(a, n, n);
    lemma_key_order(b, n, n);
    lemma_key_order(c, n, n);
    lemma_key_order(d, n, n);
}

/// Where `n` is one of four keys and none of them comes before it, it is
/// the least of the four in whatever order they are taken.
proof fn lemma_least_is_least(
    a: MaterialKey,
    b: MaterialKey,
    c: MaterialKey,
    d: MaterialKey,
    n: MaterialKey,
)
    requires
        n == a || n == b || n == c || n == d,
        !crate::material_key::key_less(a, n),
        !crate::material_key::key_less(b, n),
        !crate::material_key::key_less(c, n),
        !crate::material_key::key_less(d, n),
    ensures
        least_of_four(a, b, c, d) == n,
{
    lemma_least_of_four(a, b, c, d);
    let m = least_of_four(a, b, c, d);
    lemma_key_order(m, n, n);
    lemma_key_order(n, m, m);
    lemma_key_order(a, n, m);
    lemma_key_order(b, n, m);
    lemma_key_order(c, n, m);
    lemma_key_order(d, n, m);
}

} // verus!
