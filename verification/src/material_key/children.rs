//! The material keys one move away: after a capture, a promotion or a pawn move.

use crate::material_key::hb_piece::{capturable_roles, opponent, Color, HbPieceRole};
use crate::material_key::pawn_structure::PawnStructure;
use crate::material_key::{
    MaterialKey, key_less, lemma_key_order,
};
use vstd::prelude::*;

verus! {

/// The pawn structures `structures`, given as `color` sees the board, as
/// the board stands: for Black each is turned back to White's view.
pub open spec fn as_board_stands(structures: Seq<PawnStructure>, color: Color) -> Seq<
    PawnStructure,
> {
    Seq::new(structures.len(), |i: int| structures[i].seen_by(color))
}

/// Turns pawn structures that are given as `color` sees the board back to
/// the board as it stands.
fn turn_to_board(structures: &Vec<PawnStructure>, color: Color) -> (r: Vec<PawnStructure>)
    ensures
        r@ == as_board_stands(structures@, color),
{
    let mut out: Vec<PawnStructure> = Vec::new();
    let mut i: usize = 0;
    while i < structures.len()
        invariant
            i <= structures.len(),
            out@ == as_board_stands(structures@.take(i as int), color),
        decreases structures.len() - i,
    {
        let turned = match color {
            Color::White => structures[i],
            Color::Black => structures[i].flip_sides(),
        };
        out.push(turned);
        proof {
            assert(out@ =~= as_board_stands(structures@.take(i + 1), color));
        }
        i += 1;
    }
    proof {
        assert(structures@.take(structures@.len() as int) =~= structures@);
    }
    out
}

/// A sequence of keys in strictly ascending order.
pub open spec fn strictly_ascending(keys: Seq<MaterialKey>) -> bool {
    forall|i: int, j: int| 0 <= i < j < keys.len() ==> key_less(#[trigger] keys[i], #[trigger] keys[j])
}

impl MaterialKey {
    /// The same counts with other pawns.
    pub open spec fn with_pawns(self, pawns: PawnStructure) -> MaterialKey {
        MaterialKey { pawns, counts: self.counts }
    }

    /// The key after `color` took a piece of the role `role`, with the pawns
    /// then standing as `pawns` says; nothing where the opponent has no such piece.
    pub open spec fn after_capture(self, color: Color, pawns: PawnStructure, role: HbPieceRole)
        -> Option<MaterialKey> {
        let had = self.counts.of(opponent(color)).of(role);
        if had == 0 {
            None
        } else {
            Some(
                MaterialKey {
                    pawns,
                    counts: self.counts.with_count(opponent(color), role, (had - 1) as u8),
                },
            )
        }
    }

    /// The key after a pawn of `color` became a piece of the role `role`.
    pub open spec fn after_promotion(self, color: Color, pawns: PawnStructure, role: HbPieceRole)
        -> MaterialKey {
        MaterialKey {
            pawns,
            counts: self.counts.with_count(
                color,
                role,
                (self.counts.of(color).of(role) + 1) as u8,
            ),
        }
    }

    /// The keys after `color` took a piece, by the role taken in the order
    /// of `capturable_roles`, for the first `n` of these roles.
    pub open spec fn captures_at(self, color: Color, pawns: PawnStructure, n: nat) -> Seq<
        MaterialKey,
    >
        decreases n,
    {
        if n == 0 || n > 5 {
            Seq::empty()
        } else {
            let before = self.captures_at(color, pawns, (n - 1) as nat);
            match self.after_capture(color, pawns, capturable_roles()[n - 1]) {
                Some(key) => before.push(key),
                None => before,
            }
        }
    }

    /// The keys after `color` took a piece, for each of the first `m` pawn
    /// structures of `structures` in turn.
    pub open spec fn captures_over(self, color: Color, structures: Seq<PawnStructure>, m: nat)
        -> Seq<MaterialKey>
        decreases m,
    {
        if m == 0 || m > structures.len() {
            Seq::empty()
        } else {
            self.captures_over(color, structures, (m - 1) as nat) + self.captures_at(
                color,
                structures[m - 1],
                5,
            )
        }
    }

    /// The keys after a pawn of `color` promoted to the role `role` and took
    /// a piece in doing so, for the first `n` of the roles that can be taken.
    pub open spec fn promotion_captures_at(
        self,
        color: Color,
        pawns: PawnStructure,
        role: HbPieceRole,
        n: nat,
    ) -> Seq<MaterialKey> {
        self.after_promotion(color, pawns, role).captures_at(color, pawns, n)
    }

    /// The keys after a pawn of `color` promoted, with the pawns then
    /// standing as `pawns` says: for each of the first `n` roles in the order
    /// of `capturable_roles`, the key without a capture and then the keys with one.
    pub open spec fn promotions_at(self, color: Color, pawns: PawnStructure, n: nat) -> Seq<
        MaterialKey,
    >
        decreases n,
    {
        if n == 0 || n > 5 {
            Seq::empty()
        } else {
            self.promotions_at(color, pawns, (n - 1) as nat).push(
                self.after_promotion(color, pawns, capturable_roles()[n - 1]),
            ) + self.promotion_captures_at(color, pawns, capturable_roles()[n - 1], 5)
        }
    }

    /// The keys after a pawn of `color` promoted, for each of the first `m`
    /// pawn structures of `structures` in turn.
    pub open spec fn promotions_over(self, color: Color, structures: Seq<PawnStructure>, m: nat)
        -> Seq<MaterialKey>
        decreases m,
    {
        if m == 0 || m > structures.len() {
            Seq::empty()
        } else {
            self.promotions_over(color, structures, (m - 1) as nat) + self.promotions_at(
                color,
                structures[m - 1],
                5,
            )
        }
    }

    /// Where the pawns stand after `color` took a piece: as before, where
    /// a piece took it, or one pawn of `color` having moved diagonally.
    pub open spec fn capture_structures(self, color: Color) -> Seq<PawnStructure> {
        seq![self.pawns] + as_board_stands(self.pawns.children_with_piece_capture(color), color)
    }

    /// Where the pawns stand after a pawn of `color` promoted.
    pub open spec fn promotion_structures(self, color: Color) -> Seq<PawnStructure> {
        as_board_stands(self.pawns.children_with_promotion(color), color)
    }

    /// The keys reached by a move of `color` that changes the piece counts:
    /// a piece taken by a piece or by a pawn, then the promotions. Pawns
    /// and counts are both given as the board stands.
    pub open spec fn children_by(self, color: Color) -> Seq<MaterialKey> {
        let capture_structures = self.capture_structures(color);
        let promotion_structures = self.promotion_structures(color);
        self.captures_over(color, capture_structures, capture_structures.len())
            + self.promotions_over(color, promotion_structures, promotion_structures.len())
    }

    /// Every key one move away, before it is made canonical: the pawn moves
    /// that leave the piece counts alone, then what White and what Black
    /// can do to the piece counts.
    pub open spec fn raw_children(self) -> Seq<MaterialKey> {
        self.pawns.children_no_piece_change().map_values(|ps: PawnStructure| self.with_pawns(ps))
            + self.children_by(Color::White) + self.children_by(Color::Black)
    }

    /// Whether `key` is the canonical key of a material one move away.
    pub open spec fn is_child(self, key: MaterialKey) -> bool {
        exists|i: int|
            0 <= i < self.raw_children().len() && key == (
            #[trigger] self.raw_children()[i]).normalized()
    }

    /// Appends the keys after `color` took a piece, see `captures_at`.
    fn push_captures(&self, color: Color, pawns: PawnStructure, out: &mut Vec<MaterialKey>)
        ensures
            final(out)@ == old(out)@ + self.captures_at(color, pawns, 5),
    {
        let roles = HbPieceRole::capturable();
        let mut i: usize = 0;
        proof {
            assert(old(out)@ + self.captures_at(color, pawns, 0) =~= old(out)@);
        }
        while i < 5
            invariant
                i <= 5,
                roles@ == capturable_roles(),
                out@ == old(out)@ + self.captures_at(color, pawns, i as nat),
            decreases 5 - i,
        {
            let role = roles[i];
            let had = self.counts.get(color.other(), role);
            if had != 0 {
                let mut counts = self.counts;
                counts.set(color.other(), role, had - 1);
                let key = MaterialKey { pawns, counts };
                out.push(key);
                proof {
                    assert((old(out)@ + self.captures_at(color, pawns, i as nat)).push(key)
                        =~= old(out)@ + self.captures_at(color, pawns, i as nat).push(key));
                }
            }
            i += 1;
        }
    }

    /// Appends the keys after a pawn of `color` promoted, see `promotions_at`.
    fn push_promotions(&self, color: Color, pawns: PawnStructure, out: &mut Vec<MaterialKey>)
        requires
            forall|role: HbPieceRole| self.counts.of(color).of(role) < 255,
        ensures
            final(out)@ == old(out)@ + self.promotions_at(color, pawns, 5),
    {
        let roles = HbPieceRole::capturable();
        let mut i: usize = 0;
        proof {
            assert(old(out)@ + self.promotions_at(color, pawns, 0) =~= old(out)@);
        }
        while i < 5
            invariant
                i <= 5,
                roles@ == capturable_roles(),
                forall|role: HbPieceRole| self.counts.of(color).of(role) < 255,
                out@ == old(out)@ + self.promotions_at(color, pawns, i as nat),
            decreases 5 - i,
        {
            let role = roles[i];
            let had = self.counts.get(color, role);
            let mut counts = self.counts;
            counts.set(color, role, had + 1);
            let promoted = MaterialKey { pawns, counts };
            let ghost before = self.promotions_at(color, pawns, i as nat);
            out.push(promoted);
            promoted.push_captures(color, pawns, out);
            proof {
                assert((old(out)@ + before).push(promoted) + promoted.captures_at(color, pawns, 5)
                    =~= old(out)@ + (before.push(promoted) + promoted.captures_at(
                    color,
                    pawns,
                    5,
                )));
            }
            i += 1;
        }
    }

    /// Appends the keys reached by a move of `color` that changes the piece
    /// counts, see `children_by`.
    fn push_children_by(&self, color: Color, out: &mut Vec<MaterialKey>)
        requires
            forall|role: HbPieceRole| self.counts.of(color).of(role) < 255,
        ensures
            final(out)@ == old(out)@ + self.children_by(color),
    {
        let mut capture_structures: Vec<PawnStructure> = Vec::new();
        capture_structures.push(self.pawns);
        let seen = self.pawns.child_pawn_structures_with_piece_capture(color);
        let mut taken = turn_to_board(&seen, color);
        capture_structures.append(&mut taken);
        proof {
            assert(capture_structures@ =~= self.capture_structures(color));
            assert(old(out)@ + self.captures_over(color, capture_structures@, 0) =~= old(out)@);
        }
        let mut i: usize = 0;
        while i < capture_structures.len()
            invariant
                i <= capture_structures.len(),
                out@ == old(out)@ + self.captures_over(color, capture_structures@, i as nat),
            decreases capture_structures.len() - i,
        {
            let ghost before = self.captures_over(color, capture_structures@, i as nat);
            self.push_captures(color, capture_structures[i], out);
            proof {
                assert(old(out)@ + before + self.captures_at(
                    color,
                    capture_structures@[i as int],
                    5,
                ) =~= old(out)@ + (before + self.captures_at(
                    color,
                    capture_structures@[i as int],
                    5,
                )));
            }
            i += 1;
        }
        let promoted = self.pawns.child_pawn_structures_with_promotion(color);
        let promotion_structures = turn_to_board(&promoted, color);
        let ghost captured = self.captures_over(
            color,
            capture_structures@,
            capture_structures@.len(),
        );
        proof {
            assert(old(out)@ + captured + self.promotions_over(color, promotion_structures@, 0)
                =~= old(out)@ + captured);
        }
        let mut j: usize = 0;
        while j < promotion_structures.len()
            invariant
                j <= promotion_structures.len(),
                forall|role: HbPieceRole| self.counts.of(color).of(role) < 255,
                out@ == old(out)@ + captured + self.promotions_over(
                    color,
                    promotion_structures@,
                    j as nat,
                ),
            decreases promotion_structures.len() - j,
        {
            let ghost before = self.promotions_over(color, promotion_structures@, j as nat);
            self.push_promotions(color, promotion_structures[j], out);
            proof {
                assert(old(out)@ + captured + before + self.promotions_at(
                    color,
                    promotion_structures@[j as int],
                    5,
                ) =~= old(out)@ + captured + (before + self.promotions_at(
                    color,
                    promotion_structures@[j as int],
                    5,
                )));
            }
            j += 1;
        }
        proof {
            assert(out@ =~= old(out)@ + self.children_by(color));
        }
    }

    /// Every key one move away, before it is made canonical.
    pub fn raw_child_keys(&self) -> (r: Vec<MaterialKey>)
        requires
            forall|color: Color, role: HbPieceRole| self.counts.of(color).of(role) < 255,
        ensures
            r@ == self.raw_children(),
    {
        let mut out: Vec<MaterialKey> = Vec::new();
        let moved = self.pawns.child_pawn_structures_no_piece_change();
        let ghost keyed = |ps: PawnStructure| self.with_pawns(ps);
        let mut i: usize = 0;
        while i < moved.len()
            invariant
                i <= moved.len(),
                keyed == |ps: PawnStructure| self.with_pawns(ps),
                out@ == moved@.take(i as int).map_values(keyed),
            decreases moved.len() - i,
        {
            out.push(MaterialKey { pawns: moved[i], counts: self.counts });
            proof {
                assert(moved@.take(i + 1) =~= moved@.take(i as int).push(moved@[i as int]));
                assert(moved@.take(i as int).push(moved@[i as int]).map_values(keyed)
                    =~= moved@.take(i as int).map_values(keyed).push(keyed(moved@[i as int])));
            }
            i += 1;
        }
        proof {
            assert(moved@.take(moved@.len() as int) =~= moved@);
            assert(forall|role: HbPieceRole| self.counts.of(Color::White).of(role) < 255);
            assert(forall|role: HbPieceRole| self.counts.of(Color::Black).of(role) < 255);
        }
        self.push_children_by(Color::White, &mut out);
        self.push_children_by(Color::Black, &mut out);
        out
    }

    /// The canonical keys of the materials one move away: after a capture
    /// of any piece but a king, after a promotion with or without a capture,
    /// and after a pawn move or a capture of a pawn. Each key is given once,
    /// in the order of keys.
    pub fn child_material_keys(&self) -> (r: Vec<MaterialKey>)
        requires
            self.wf(),
        ensures
            strictly_ascending(r@),
            forall|key: MaterialKey| r@.contains(key) <==> self.is_child(key),
            !r@.contains(*self),
    {
        proof {
            self.lemma_counts_below_limit();
            if self.is_child(*self) {
                self.lemma_child_is_another_key(*self);
            }
        }
        let raw = self.raw_child_keys();
        let mut out: Vec<MaterialKey> = Vec::new();
        let mut i: usize = 0;
        while i < raw.len()
            invariant
                i <= raw.len(),
                raw@ == self.raw_children(),
                strictly_ascending(out@),
                forall|key: MaterialKey|
                    out@.contains(key) <==> exists|j: int|
                        0 <= j < i && key == (#[trigger] raw@[j]).normalized(),
            decreases raw.len() - i,
        {
            let key = raw[i].into_normalized();
            let ghost before = out@;
            insert_key(&mut out, key);
            proof {
                assert forall|k: MaterialKey| out@.contains(k) <==> exists|j: int|
                    0 <= j < i + 1 && k == (#[trigger] raw@[j]).normalized() by {
                    if out@.contains(k) {
                        if k == key {
                            assert(k == raw@[i as int].normalized());
                        } else {
                            assert(before.contains(k));
                        }
                    }
                    if exists|j: int| 0 <= j < i + 1 && k == (#[trigger] raw@[j]).normalized() {
                        let j = choose|j: int|
                            0 <= j < i + 1 && k == (#[trigger] raw@[j]).normalized();
                        if j < i {
                            assert(before.contains(k));
                        }
                    }
                }
            }
            i += 1;
        }
        out
    }

    /// In a valid key no count is at the limit of its type.
    pub proof fn lemma_counts_below_limit(self)
        requires
            self.wf(),
        ensures
            forall|color: Color, role: HbPieceRole| self.counts.of(color).of(role) < 255,
    {
        assert forall|color: Color, role: HbPieceRole| self.counts.of(color).of(role) < 255 by {
            assert(self.counts.white.king == 1);
            assert(self.counts.black.king == 1);
        }
    }
}

/// Puts `key` at its place in the ascending sequence `keys`, unless it is there already.
pub fn insert_key(keys: &mut Vec<MaterialKey>, key: MaterialKey)
    requires
        strictly_ascending(old(keys)@),
    ensures
        strictly_ascending(final(keys)@),
        forall|k: MaterialKey| final(keys)@.contains(k) <==> (old(keys)@.contains(k) || k == key),
{
    let mut i: usize = 0;
    while i < keys.len() && keys[i].precedes(&key)
        invariant
            i <= keys.len(),
            keys@ == old(keys)@,
            forall|a: int| 0 <= a < i ==> key_less(#[trigger] keys@[a], key),
        decreases keys.len() - i,
    {
        i += 1;
    }
    if i < keys.len() && keys[i] == key {
        proof {
            assert(keys@.contains(key));
        }
        return ;
    }
    let ghost before = keys@;
    keys.insert(i, key);
    proof {
        assert(keys@ == before.insert(i as int, key));
        assert forall|a: int, b: int| 0 <= a < b < keys@.len() implies key_less(
            #[trigger] keys@[a],
            #[trigger] keys@[b],
        ) by {
            let x = if a < i { before[a] } else if a == i { key } else { before[a - 1] };
            let y = if b < i { before[b] } else if b == i { key } else { before[b - 1] };
            assert(keys@[a] == x);
            assert(keys@[b] == y);
            if b == i {
            } else if a == i {
                // key comes before what stood at `i`, and that before the rest
                lemma_key_order(before[i as int], key, key);
                lemma_key_order(key, before[i as int], before[b - 1]);
            } else if a < i && b > i {
                assert(key_less(before[a], before[b - 1]));
            } else {
            }
        }
        assert forall|k: MaterialKey| keys@.contains(k) <==> (before.contains(k) || k == key) by {
            if keys@.contains(k) {
                let a = choose|a: int| 0 <= a < keys@.len() && keys@[a] == k;
                if a < i {
                    assert(before[a] == k);
                } else if a > i {
                    assert(before[a - 1] == k);
                }
            }
            if before.contains(k) {
                let a = choose|a: int| 0 <= a < before.len() && before[a] == k;
                if a < i {
                    assert(keys@[a] == k);
                } else {
                    assert(keys@[a + 1] == k);
                }
            }
            if k == key {
                assert(keys@[i as int] == k);
            }
        }
        assert(before == old(keys)@);
        assert(forall|k: MaterialKey| keys@.contains(k) <==> (old(keys)@.contains(k) || k == key));
    }
}

} // verus!
