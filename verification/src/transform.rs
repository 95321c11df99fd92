//! The symmetries of the board, and which of them a material allows.

use crate::bitboard::{add_square, contains, has_square};
use crate::material_key::MaterialKey;
use vstd::prelude::*;

verus! {

/// A symmetry of the square board.
#[derive(Clone, Copy, Debug, PartialEq, Eq, Structural)]
pub enum Transform {
    Identity,
    FlipHorizontal,
    FlipVertical,
    Rotate90,
    Rotate180,
    Rotate270,
    MirrorMain,
    MirrorAnti,
}

/// The sets of symmetries that leave a kind of material as it is.
#[derive(Clone, Copy, Debug, PartialEq, Eq, Structural)]
pub enum TransformSet {
    /// Without pawns and bishops: all eight symmetries.
    Full,
    /// Without pawns, with bishops: the four rotations.
    Rotations,
    /// With pawns, without bishops: the mirror that exchanges the files.
    Horizontal,
    /// With pawns and bishops: nothing but the identity.
    Identity,
}

/// The members of a set of symmetries, in a fixed order.
pub open spec fn transforms_of(set: TransformSet) -> Seq<Transform> {
    match set {
        TransformSet::Full => seq![
            Transform::Identity,
            Transform::FlipHorizontal,
            Transform::FlipVertical,
            Transform::Rotate90,
            Transform::Rotate270,
            Transform::Rotate180,
            Transform::MirrorMain,
            Transform::MirrorAnti,
        ],
        TransformSet::Rotations => seq![
            Transform::Identity,
            Transform::Rotate90,
            Transform::Rotate180,
            Transform::Rotate270,
        ],
        TransformSet::Horizontal => seq![Transform::Identity, Transform::FlipHorizontal],
        TransformSet::Identity => seq![Transform::Identity],
    }
}

/// Where a square lands under a symmetry.
pub open spec fn transformed_square(sq: int, transform: Transform) -> int {
    let file = sq % 8;
    let rank = sq / 8;
    match transform {
        Transform::Identity => rank * 8 + file,
        Transform::FlipHorizontal => rank * 8 + (7 - file),
        Transform::FlipVertical => (7 - rank) * 8 + file,
        Transform::Rotate90 => (7 - file) * 8 + rank,
        Transform::Rotate180 => (7 - rank) * 8 + (7 - file),
        Transform::Rotate270 => file * 8 + (7 - rank),
        Transform::MirrorMain => file * 8 + rank,
        Transform::MirrorAnti => (7 - file) * 8 + (7 - rank),
    }
}

/// The symmetry that undoes `transform`.
pub open spec fn inverse_of(transform: Transform) -> Transform {
    match transform {
        Transform::Rotate90 => Transform::Rotate270,
        Transform::Rotate270 => Transform::Rotate90,
        other => other,
    }
}

/// Which symmetries a material allows, by whether it has pawns and bishops.
pub open spec fn transform_set_of(has_pawns: bool, has_bishops: bool) -> TransformSet {
    if !has_pawns && !has_bishops {
        TransformSet::Full
    } else if !has_pawns {
        TransformSet::Rotations
    } else if !has_bishops {
        TransformSet::Horizontal
    } else {
        TransformSet::Identity
    }
}

impl TransformSet {
    pub fn transforms(self) -> (r: Vec<Transform>)
        ensures
            r@ == transforms_of(self),
    {
        let r = match self {
            TransformSet::Full => vec![
                Transform::Identity,
                Transform::FlipHorizontal,
                Transform::FlipVertical,
                Transform::Rotate90,
                Transform::Rotate270,
                Transform::Rotate180,
                Transform::MirrorMain,
                Transform::MirrorAnti,
            ],
            TransformSet::Rotations => vec![
                Transform::Identity,
                Transform::Rotate90,
                Transform::Rotate180,
                Transform::Rotate270,
            ],
            TransformSet::Horizontal => vec![Transform::Identity, Transform::FlipHorizontal],
            TransformSet::Identity => vec![Transform::Identity],
        };
        assert(r@ =~= transforms_of(self));
        r
    }
}

/// Where the square `square` lands under `transform`.
pub fn transform_square(square: u8, transform: Transform) -> (r: u8)
    requires
        square < 64,
    ensures
        r == transformed_square(square as int, transform),
        r < 64,
        transformed_square(r as int, inverse_of(transform)) == square,
{
    let file = square % 8;
    let rank = square / 8;
    let (new_file, new_rank) = match transform {
        Transform::Identity => (file, rank),
        Transform::FlipHorizontal => (7 - file, rank),
        Transform::FlipVertical => (file, 7 - rank),
        Transform::Rotate90 => (rank, 7 - file),
        Transform::Rotate180 => (7 - file, 7 - rank),
        Transform::Rotate270 => (7 - rank, file),
        Transform::MirrorMain => (rank, file),
        Transform::MirrorAnti => (7 - rank, 7 - file),
    };
    new_rank * 8 + new_file
}

/// The set of squares `bitboard` under `transform`: a square is in the
/// result exactly when the square that lands on it was in the set.
pub fn transform_bitboard(bitboard: u64, transform: Transform) -> (r: u64)
    ensures
        forall|t: int|
            0 <= t < 64 ==> has_square(r, t) == has_square(
                bitboard,
                transformed_square(t, inverse_of(transform)),
            ),
{
    let mut result: u64 = 0;
    let mut sq: u8 = 0;
    proof {
        assert forall|t: int| 0 <= t < 64 implies !has_square(0, t) by {
            crate::bitboard::lemma_empty(t);
        }
    }
    while sq < 64
        invariant
            sq <= 64,
            forall|t: int|
                0 <= t < 64 ==> has_square(result, t) == (has_square(
                    bitboard,
                    transformed_square(t, inverse_of(transform)),
                ) && transformed_square(t, inverse_of(transform)) < sq),
        decreases 64 - sq,
    {
        if contains(bitboard, sq) {
            let target = transform_square(sq, transform);
            let ghost before = result;
            result = add_square(result, target);
            proof {
                assert forall|t: int| 0 <= t < 64 implies has_square(result, t) == (has_square(
                    bitboard,
                    transformed_square(t, inverse_of(transform)),
                ) && transformed_square(t, inverse_of(transform)) < sq + 1) by {
                    lemma_transform_round_trip(t, inverse_of(transform));
                    lemma_transform_round_trip(sq as int, transform);
                }
            }
        } else {
            proof {
                assert forall|t: int| 0 <= t < 64 implies has_square(result, t) == (has_square(
                    bitboard,
                    transformed_square(t, inverse_of(transform)),
                ) && transformed_square(t, inverse_of(transform)) < sq + 1) by {
                    lemma_transform_round_trip(t, inverse_of(transform));
                }
            }
        }
        sq += 1;
    }
    proof {
        assert forall|t: int| 0 <= t < 64 implies has_square(result, t) == has_square(
            bitboard,
            transformed_square(t, inverse_of(transform)),
        ) by {
            lemma_transform_round_trip(t, inverse_of(transform));
        }
    }
    result
}

/// A symmetry maps the board onto itself, and its inverse undoes it.
pub proof fn lemma_transform_round_trip(sq: int, transform: Transform)
    requires
        0 <= sq < 64,
    ensures
        0 <= transformed_square(sq, transform) < 64,
        transformed_square(transformed_square(sq, transform), inverse_of(transform)) == sq,
        inverse_of(inverse_of(transform)) == transform,
{
}

impl MaterialKey {
    /// The set of symmetries under which positions of this material stay
    /// positions of this material.
    pub fn transform_set(&self) -> (r: TransformSet)
        ensures
            r == transform_set_of(
                self.pawns.white != 0 || self.pawns.black != 0,
                self.counts.white.light_bishop > 0 || self.counts.black.light_bishop > 0
                    || self.counts.white.dark_bishop > 0 || self.counts.black.dark_bishop > 0,
            ),
    {
        match (!self.has_pawns(), self.has_bishops()) {
            (true, false) => TransformSet::Full,
            (true, true) => TransformSet::Rotations,
            (false, false) => TransformSet::Horizontal,
            (false, true) => TransformSet::Identity,
        }
    }

    /// The symmetries under which positions of this material stay positions
    /// of this material.
    pub fn allowed_transforms(&self) -> (r: Vec<Transform>)
        ensures
            r@ == transforms_of(
                transform_set_of(
                    self.pawns.white != 0 || self.pawns.black != 0,
                    self.counts.white.light_bishop > 0 || self.counts.black.light_bishop > 0
                        || self.counts.white.dark_bishop > 0 || self.counts.black.dark_bishop > 0,
                ),
            ),
    {
        self.transform_set().transforms()
    }
}

} // verus!
