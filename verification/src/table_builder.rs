//! The retrograde solver: every index of a material gets a range of
//! scores, and the ranges are narrowed sweep by sweep until nothing changes.

use crate::material_key::children::strictly_ascending;
use crate::material_key::from_position::material_on;
use crate::material_key::MaterialKey;
use crate::position::{BoardRole, ChessMove, Position};
use crate::position_indexer::{
    index_of_position, position_of_index, total_positions_of, PositionIndexer,
    PositionMappingError,
};
use crate::rules::{
    is_checkmate, is_insufficient_material, is_stalemate, legal_moves, play, rules_checkmate,
    rules_insufficient_material, rules_legal_moves, rules_play, rules_stalemate,
};
use crate::score::{
    range_add_half_move, range_flip, range_is_certain, range_is_illegal, range_max,
    score_ceiling, score_floor, DtzScoreRange,
};
use crate::wdl_score_range::{range_of_wdl, wdl_of_range, WdlScoreRange};
use crate::wdl_table::WdlTable;
use vstd::prelude::*;

verus! {

/// The largest number of sweeps: one more than the longest run of moves
/// that a score counts.
pub const MAX_STEPS: usize = 101;

/// The solver did not come to rest within `MAX_STEPS` sweeps.
#[derive(Debug, Clone, Copy, PartialEq, Eq, Structural)]
pub struct IterationLimitExceeded;

/// Builds the table of one material from the tables of the materials one
/// move away.
pub struct TableBuilder {
    pub material: MaterialKey,
    pub position_indexer: PositionIndexer,
    pub positions: Vec<DtzScoreRange>,
    pub child_tables: Vec<WdlTable>,
    pub child_indexers: Vec<PositionIndexer>,
    pub loaded_child_tables: Vec<MaterialKey>,
    pub missing_child_tables: Vec<MaterialKey>,
}

/// The range that says nothing.
pub open spec fn unknown_range() -> (int, int) {
    (score_floor(), score_ceiling())
}

/// The range that marks an index without a legal position.
pub open spec fn illegal_range() -> (int, int) {
    (score_ceiling(), score_floor())
}

/// The range of a position in which the side to move is mated.
pub open spec fn checkmate_range() -> (int, int) {
    (score_floor(), score_floor())
}

/// The ranges of a sequence of scores.
pub open spec fn ranges_of(scores: Seq<DtzScoreRange>) -> Seq<(int, int)> {
    Seq::new(scores.len(), |i: int| scores[i]@)
}

/// The place of the first table for the material `key` at or after `from`.
pub open spec fn child_slot(tables: Seq<WdlTable>, key: MaterialKey, from: nat) -> Option<int>
    decreases tables.len() - from,
{
    if from >= tables.len() {
        None
    } else if tables[from as int].material == key {
        Some(from as int)
    } else {
        child_slot(tables, key, from + 1)
    }
}

/// What the tables of the children say of a position: the value at its
/// index in the table of its material, as a range; nothing known where no
/// table has the material or the position has no index in it.
pub open spec fn looked_up(tables: Seq<WdlTable>, child: Position) -> (int, int) {
    match child_slot(tables, material_on(child.board).normalized(), 0) {
        None => unknown_range(),
        Some(slot) => match index_of_position(tables[slot].material, child) {
            Ok(index) => if index < tables[slot].positions@.len() {
                range_of_wdl(tables[slot].positions@[index as int])
            } else {
                unknown_range()
            },
            Err(_) => unknown_range(),
        },
    }
}

/// The range of a position reached by a capture, a promotion or a pawn
/// move, from the view of the side then to move: a checkmate and a draw by
/// rule are scored at once, anything else is looked up. Where the rules
/// cannot tell, nothing is known.
pub open spec fn settled_or_looked_up(tables: Seq<WdlTable>, child: Position) -> (int, int) {
    match rules_checkmate(child) {
        None => unknown_range(),
        Some(true) => checkmate_range(),
        Some(false) => match rules_stalemate(child) {
            None => unknown_range(),
            Some(true) => (0, 0),
            Some(false) => match rules_insufficient_material(child) {
                None => unknown_range(),
                Some(true) => (0, 0),
                Some(false) => looked_up(tables, child),
            },
        },
    }
}

/// Whether a move changes the material or the pawns, so that the
/// position after it belongs to another table.
pub open spec fn leaves_table(mv: ChessMove) -> bool {
    mv.capture.is_some() || mv.en_passant || mv.promotion.is_some() || mv.role == BoardRole::Pawn
}

/// The range of the position after a move, from the view of the side
/// then to move. After a move that stays in the table it is the range of
/// that position in the last sweep, one halfmove on.
pub open spec fn move_score(
    material: MaterialKey,
    tables: Seq<WdlTable>,
    prev: Seq<(int, int)>,
    position: Position,
    mv: ChessMove,
) -> (int, int) {
    match rules_play(position, mv) {
        None => unknown_range(),
        Some(child) => if leaves_table(mv) {
            settled_or_looked_up(tables, child)
        } else {
            match index_of_position(material, child) {
                Ok(index) => if index < prev.len() {
                    range_add_half_move(prev[index as int])
                } else {
                    unknown_range()
                },
                Err(_) => unknown_range(),
            }
        },
    }
}

/// The best that the side to move can get with one of the first `n`
/// moves: the bound-wise maximum of the ranges after these moves, each
/// flipped to the view of the side that moves.
pub open spec fn best_of_moves(
    material: MaterialKey,
    tables: Seq<WdlTable>,
    prev: Seq<(int, int)>,
    position: Position,
    moves: Seq<ChessMove>,
    n: nat,
) -> (int, int)
    decreases n,
{
    if n == 0 {
        illegal_range()
    } else if n == 1 {
        range_flip(move_score(material, tables, prev, position, moves[0]))
    } else {
        range_max(
            best_of_moves(material, tables, prev, position, moves, (n - 1) as nat),
            range_flip(move_score(material, tables, prev, position, moves[n - 1])),
        )
    }
}

/// The range of a legal position that was not settled before: mate and
/// draws by rule at once, else the best of the moves. Where the rules
/// cannot tell, the position counts as illegal; where they give no move,
/// the range stays as it was.
pub open spec fn played_score(
    material: MaterialKey,
    tables: Seq<WdlTable>,
    prev: Seq<(int, int)>,
    position: Position,
    old: (int, int),
) -> (int, int) {
    match rules_checkmate(position) {
        None => illegal_range(),
        Some(true) => checkmate_range(),
        Some(false) => match rules_stalemate(position) {
            None => illegal_range(),
            Some(true) => (0, 0),
            Some(false) => match rules_insufficient_material(position) {
                None => illegal_range(),
                Some(true) => (0, 0),
                Some(false) => match rules_legal_moves(position) {
                    None => illegal_range(),
                    Some(moves) => if moves.len() == 0 {
                        old
                    } else {
                        best_of_moves(material, tables, prev, position, moves, moves.len())
                    },
                },
            },
        },
    }
}

/// The range of the index `index` after one more sweep. A range that is
/// illegal or certain stays. An index without a legal position becomes
/// illegal.
pub open spec fn position_score(
    material: MaterialKey,
    tables: Seq<WdlTable>,
    prev: Seq<(int, int)>,
    index: int,
) -> (int, int) {
    let old = prev[index];
    if range_is_illegal(old) || range_is_certain(old) {
        old
    } else {
        match position_of_index(material, index as nat) {
            Ok(position) => played_score(material, tables, prev, position, old),
            Err(PositionMappingError::InvalidPosition(_)) => illegal_range(),
            Err(PositionMappingError::TwoPiecesOnSameSquare) => illegal_range(),
            Err(_) => old,
        }
    }
}

/// The ranges after one sweep over all indices.
pub open spec fn swept(material: MaterialKey, tables: Seq<WdlTable>, prev: Seq<(int, int)>) -> Seq<
    (int, int),
> {
    Seq::new(prev.len(), |i: int| position_score(material, tables, prev, i))
}

/// The ranges after `n` sweeps.
pub open spec fn swept_times(
    material: MaterialKey,
    tables: Seq<WdlTable>,
    prev: Seq<(int, int)>,
    n: nat,
) -> Seq<(int, int)>
    decreases n,
{
    if n == 0 {
        prev
    } else {
        swept(material, tables, swept_times(material, tables, prev, (n - 1) as nat))
    }
}

/// Among the first `n` indices, the number of those whose range differs
/// between `a` and `b`.
pub open spec fn count_changed(a: Seq<(int, int)>, b: Seq<(int, int)>, n: nat) -> nat
    decreases n,
{
    if n == 0 {
        0
    } else {
        count_changed(a, b, (n - 1) as nat) + if a[n - 1] != b[n - 1] {
            1nat
        } else {
            0nat
        }
    }
}

/// Where no range differs, the sequences are the same.
pub proof fn lemma_nothing_changed(a: Seq<(int, int)>, b: Seq<(int, int)>, n: nat)
    requires
        count_changed(a, b, n) == 0,
        n <= a.len(),
        n <= b.len(),
    ensures
        forall|i: int| 0 <= i < n ==> a[i] == b[i],
    decreases n,
{
    if n > 0 {
        lemma_nothing_changed(a, b, (n - 1) as nat);
    }
}

/// The place of the first table at or after `from` that is a table of the
/// material `key` with one value for each index of the material.
pub open spec fn fitting_slot(tables: Seq<WdlTable>, key: MaterialKey, from: nat) -> Option<int>
    decreases tables.len() - from,
{
    if from >= tables.len() {
        None
    } else if tables[from as int].material == key && tables[from as int].positions@.len()
        == total_positions_of(key) {
        Some(from as int)
    } else {
        fitting_slot(tables, key, from + 1)
    }
}

/// The tables of the children fit their materials.
pub open spec fn children_wf(tables: Seq<WdlTable>, indexers: Seq<PositionIndexer>) -> bool {
    &&& tables.len() == indexers.len()
    &&& forall|j: int|
        0 <= j < tables.len() ==> (#[trigger] indexers[j]).wf() && indexers[j].material()
            == tables[j].material && tables[j].positions@.len() == total_positions_of(
            tables[j].material,
        )
}

impl TableBuilder {
    /// The parts of the builder fit together: there is a range for each
    /// index of the material, and each child table fits its material.
    pub open spec fn wf(self) -> bool {
        &&& self.position_indexer.wf()
        &&& self.position_indexer.material() == self.material
        &&& self.positions@.len() == total_positions_of(self.material)
        &&& children_wf(self.child_tables@, self.child_indexers@)
    }

    /// The ranges of all indices.
    pub open spec fn ranges(self) -> Seq<(int, int)> {
        ranges_of(self.positions@)
    }

    /// A builder for a material, with no table of a child at hand: every
    /// index starts as unknown, and every child material counts as missing.
    pub fn new(material: MaterialKey) -> (r: Self)
        requires
            material.wf(),
            total_positions_of(material) <= usize::MAX,
        ensures
            r.wf(),
            r.material == material,
            r.child_tables@.len() == 0,
            r.loaded_child_tables@.len() == 0,
            strictly_ascending(r.missing_child_tables@),
            forall|key: MaterialKey| r.missing_child_tables@.contains(key) <==> material.is_child(key),
            forall|i: int| 0 <= i < r.positions@.len() ==> (#[trigger] r.positions@[i])@
                == unknown_range(),
    {
        let tables: Vec<WdlTable> = Vec::new();
        let ghost none = tables@;
        let r = Self::with_child_tables(material, tables);
        proof {
            assert(none.len() == 0);
            if r.loaded_child_tables@.len() > 0 {
                let key = r.loaded_child_tables@[0];
                assert(r.loaded_child_tables@.contains(key));
            }
            assert forall|key: MaterialKey| r.missing_child_tables@.contains(key)
                <==> material.is_child(key) by {
                if r.loaded_child_tables@.contains(key) {
                    let i = choose|i: int| 0 <= i < r.loaded_child_tables@.len() && r.loaded_child_tables@[i] == key;
                }
            }
        }
        r
    }

    /// A builder for a material, with the tables of some of its children at
    /// hand. A child material is loaded where `tables` has a table of that
    /// material with one value for each of its indices; the first such
    /// table is taken. The other child materials are missing: moves into
    /// them will count as unknown.
    pub fn with_child_tables(material: MaterialKey, tables: Vec<WdlTable>) -> (r: Self)
        requires
            material.wf(),
            total_positions_of(material) <= usize::MAX,
        ensures
            r.wf(),
            r.material == material,
            forall|key: MaterialKey|
                #![trigger r.loaded_child_tables@.contains(key)]
                #![trigger r.missing_child_tables@.contains(key)]
                #![trigger material.is_child(key)]
                (r.loaded_child_tables@.contains(key) || r.missing_child_tables@.contains(key))
                    <==> material.is_child(key),
            forall|key: MaterialKey|
                #![trigger r.loaded_child_tables@.contains(key)]
                r.loaded_child_tables@.contains(key) <==> (material.is_child(key) && exists|
                    j: int,
                |
                    0 <= j < tables@.len() && (#[trigger] tables@[j]).material == key
                        && tables@[j].positions@.len() == total_positions_of(key)),
            forall|j: int|
                0 <= j < r.child_tables@.len() ==> r.loaded_child_tables@[j] == (
                #[trigger] r.child_tables@[j]).material && fitting_slot(
                    tables@,
                    r.child_tables@[j].material,
                    0,
                ).is_some() && r.child_tables@[j].positions@ == tables@[fitting_slot(
                    tables@,
                    r.child_tables@[j].material,
                    0,
                ).unwrap()].positions@,
            r.child_tables@.len() == r.loaded_child_tables@.len(),
            strictly_ascending(r.loaded_child_tables@),
            strictly_ascending(r.missing_child_tables@),
            forall|i: int| 0 <= i < r.positions@.len() ==> (#[trigger] r.positions@[i])@
                == unknown_range(),
    {
        let position_indexer = PositionIndexer::new(material);
        let positions_len = position_indexer.total_positions();
        let mut child_tables: Vec<WdlTable> = Vec::new();
        let mut child_indexers: Vec<PositionIndexer> = Vec::new();
        let mut loaded_child_tables: Vec<MaterialKey> = Vec::new();
        let mut missing_child_tables: Vec<MaterialKey> = Vec::new();
        let child_keys = material.child_material_keys();
        let mut c: usize = 0;
        while c < child_keys.len()
            invariant
                c <= child_keys@.len(),
                strictly_ascending(child_keys@),
                strictly_ascending(loaded_child_tables@),
                strictly_ascending(missing_child_tables@),
                children_wf(child_tables@, child_indexers@),
                child_tables@.len() == loaded_child_tables@.len(),
                forall|j: int|
                    0 <= j < child_tables@.len() ==> loaded_child_tables@[j] == (
                    #[trigger] child_tables@[j]).material && fitting_slot(
                        tables@,
                        child_tables@[j].material,
                        0,
                    ).is_some() && child_tables@[j].positions@ == tables@[fitting_slot(
                        tables@,
                        child_tables@[j].material,
                        0,
                    ).unwrap()].positions@,
                forall|key: MaterialKey|
                    (loaded_child_tables@.contains(key) || missing_child_tables@.contains(key))
                        <==> child_keys@.take(c as int).contains(key),
                forall|key: MaterialKey|
                    loaded_child_tables@.contains(key) <==> (child_keys@.take(c as int).contains(
                        key,
                    ) && exists|j: int|
                        0 <= j < tables@.len() && (#[trigger] tables@[j]).material == key
                            && tables@[j].positions@.len() == total_positions_of(key)),
            decreases child_keys@.len() - c,
        {
            let child_key = child_keys[c];
            let found = find_table(&tables, &child_key);
            let ghost loaded_before = loaded_child_tables@;
            let ghost missing_before = missing_child_tables@;
            let ghost taken = child_keys@.take(c as int);
            proof {
                assert(child_keys@.take(c + 1) =~= taken.push(child_key));
                // every key taken so far comes before this one
                assert forall|j: int| 0 <= j < loaded_before.len() implies crate::material_key::key_less(
                    #[trigger] loaded_before[j],
                    child_key,
                ) by {
                    assert(loaded_before.contains(loaded_before[j]));
                    assert(taken.contains(loaded_before[j]));
                    let at = choose|at: int| 0 <= at < taken.len() && taken[at] == loaded_before[j];
                    assert(child_keys@[at] == loaded_before[j]);
                }
                assert forall|j: int| 0 <= j < missing_before.len() implies crate::material_key::key_less(
                    #[trigger] missing_before[j],
                    child_key,
                ) by {
                    assert(missing_before.contains(missing_before[j]));
                    assert(taken.contains(missing_before[j]));
                    let at = choose|at: int| 0 <= at < taken.len() && taken[at] == missing_before[j];
                    assert(child_keys@[at] == missing_before[j]);
                }
            }
            match found {
                Some((slot, indexer)) => {
                    let positions = copy_values(&tables[slot].positions);
                    child_tables.push(WdlTable { material: child_key, positions });
                    child_indexers.push(indexer);
                    loaded_child_tables.push(child_key);
                    proof {
                        assert forall|key: MaterialKey|
                            (loaded_child_tables@.contains(key) || missing_child_tables@.contains(
                                key,
                            )) <==> taken.push(child_key).contains(key) by {
                            lemma_push_contains(loaded_before, child_key, key);
                            lemma_push_contains(taken, child_key, key);
                        }
                        assert forall|key: MaterialKey|
                            loaded_child_tables@.contains(key) <==> (taken.push(
                                child_key,
                            ).contains(key) && exists|j: int|
                                0 <= j < tables@.len() && (#[trigger] tables@[j]).material == key
                                    && tables@[j].positions@.len() == total_positions_of(key)) by {
                            lemma_push_contains(loaded_before, child_key, key);
                            lemma_push_contains(taken, child_key, key);
                        }
                    }
                },
                None => {
                    missing_child_tables.push(child_key);
                    proof {
                        assert forall|key: MaterialKey|
                            (loaded_child_tables@.contains(key) || missing_child_tables@.contains(
                                key,
                            )) <==> taken.push(child_key).contains(key) by {
                            lemma_push_contains(missing_before, child_key, key);
                            lemma_push_contains(taken, child_key, key);
                        }
                        assert forall|key: MaterialKey|
                            loaded_child_tables@.contains(key) <==> (taken.push(
                                child_key,
                            ).contains(key) && exists|j: int|
                                0 <= j < tables@.len() && (#[trigger] tables@[j]).material == key
                                    && tables@[j].positions@.len() == total_positions_of(key)) by {
                            lemma_push_contains(taken, child_key, key);
                        }
                    }
                },
            }
            c += 1;
        }
        proof {
            assert(child_keys@.take(child_keys@.len() as int) =~= child_keys@);
        }
        let mut positions: Vec<DtzScoreRange> = Vec::with_capacity(positions_len);
        let mut i: usize = 0;
        while i < positions_len
            invariant
                i <= positions_len,
                positions@.len() == i,
                forall|k: int| 0 <= k < i ==> (#[trigger] positions@[k])@ == unknown_range(),
            decreases positions_len - i,
        {
            positions.push(DtzScoreRange::unknown());
            i += 1;
        }
        Self {
            material,
            position_indexer,
            positions,
            child_tables,
            child_indexers,
            loaded_child_tables,
            missing_child_tables,
        }
    }

    pub fn loaded_child_materials(&self) -> (r: &Vec<MaterialKey>)
        ensures
            r@ == self.loaded_child_tables@,
    {
        &self.loaded_child_tables
    }

    pub fn missing_child_materials(&self) -> (r: &Vec<MaterialKey>)
        ensures
            r@ == self.missing_child_tables@,
    {
        &self.missing_child_tables
    }

    /// What the tables of the children say of a position.
    fn look_up(&self, child: &Position) -> (r: DtzScoreRange)
        requires
            self.wf(),
        ensures
            r@ == looked_up(self.child_tables@, *child),
    {
        let child_key = match MaterialKey::from_position(child) {
            Some(key) => key,
            None => {
                return DtzScoreRange::unknown();
            },
        };
        let mut slot: usize = 0;
        while slot < self.child_tables.len()
            invariant
                slot <= self.child_tables@.len(),
                self.wf(),
                child_key == material_on(child.board).normalized(),
                child_slot(self.child_tables@, child_key, 0) == child_slot(
                    self.child_tables@,
                    child_key,
                    slot as nat,
                ),
            decreases self.child_tables@.len() - slot,
        {
            if self.child_tables[slot].material == child_key {
                let table = &self.child_tables[slot];
                proof {
                    assert(self.child_indexers@[slot as int].wf());
                }
                return match self.child_indexers[slot].position_to_index(child) {
                    Ok(index) => table.positions[index].to_dtz(),
                    Err(_) => DtzScoreRange::unknown(),
                };
            }
            slot += 1;
        }
        DtzScoreRange::unknown()
    }

    /// The range of a position reached by a capture, a promotion or a pawn
    /// move, from the view of the side then to move.
    fn settle_or_look_up(&self, child: &Position) -> (r: DtzScoreRange)
        requires
            self.wf(),
        ensures
            r@ == settled_or_looked_up(self.child_tables@, *child),
    {
        match is_checkmate(child) {
            None => DtzScoreRange::unknown(),
            Some(true) => DtzScoreRange::checkmate(),
            Some(false) => match is_stalemate(child) {
                None => DtzScoreRange::unknown(),
                Some(true) => DtzScoreRange::draw(),
                Some(false) => match is_insufficient_material(child) {
                    None => DtzScoreRange::unknown(),
                    Some(true) => DtzScoreRange::draw(),
                    Some(false) => self.look_up(child),
                },
            },
        }
    }

    /// The range of the position after the move `mv`, from the view of the
    /// side then to move.
    pub fn evaluate_move(&self, prev_positions: &Vec<DtzScoreRange>, position: &Position, mv: ChessMove) -> (r: DtzScoreRange)
        requires
            self.wf(),
        ensures
            r@ == move_score(
                self.material,
                self.child_tables@,
                ranges_of(prev_positions@),
                *position,
                mv,
            ),
    {
        let child_position = match play(position, &mv) {
            Some(child) => child,
            None => {
                return DtzScoreRange::unknown();
            },
        };
        let is_promotion = mv.promotion.is_some();
        let is_pawn_move = match mv.role {
            BoardRole::Pawn => true,
            _ => false,
        };
        if !mv.is_capture() && !is_promotion && !is_pawn_move {
            match self.position_indexer.position_to_index(&child_position) {
                Ok(child_index) => {
                    if child_index < prev_positions.len() {
                        prev_positions[child_index].add_half_move()
                    } else {
                        DtzScoreRange::unknown()
                    }
                },
                Err(_) => DtzScoreRange::unknown(),
            }
        } else {
            self.settle_or_look_up(&child_position)
        }
    }

    /// The best of the moves of a position, see `best_of_moves`.
    fn best_move(&self, prev_positions: &Vec<DtzScoreRange>, position: &Position, moves: &Vec<ChessMove>) -> (r: DtzScoreRange)
        requires
            self.wf(),
            moves@.len() > 0,
        ensures
            r@ == best_of_moves(
                self.material,
                self.child_tables@,
                ranges_of(prev_positions@),
                *position,
                moves@,
                moves@.len(),
            ),
    {
        let mut best = self.evaluate_move(prev_positions, position, moves[0]).flip();
        let mut m: usize = 1;
        while m < moves.len()
            invariant
                1 <= m <= moves@.len(),
                self.wf(),
                best@ == best_of_moves(
                    self.material,
                    self.child_tables@,
                    ranges_of(prev_positions@),
                    *position,
                    moves@,
                    m as nat,
                ),
            decreases moves@.len() - m,
        {
            let score = self.evaluate_move(prev_positions, position, moves[m]).flip();
            best = best.max(&score);
            m += 1;
        }
        best
    }

    /// The range of a legal position that was not settled before.
    fn score_played(&self, prev_positions: &Vec<DtzScoreRange>, position: &Position, old_score: DtzScoreRange) -> (r: DtzScoreRange)
        requires
            self.wf(),
        ensures
            r@ == played_score(
                self.material,
                self.child_tables@,
                ranges_of(prev_positions@),
                *position,
                old_score@,
            ),
    {
        match is_checkmate(position) {
            None => DtzScoreRange::illegal(),
            Some(true) => DtzScoreRange::checkmate(),
            Some(false) => match is_stalemate(position) {
                None => DtzScoreRange::illegal(),
                Some(true) => DtzScoreRange::draw(),
                Some(false) => match is_insufficient_material(position) {
                    None => DtzScoreRange::illegal(),
                    Some(true) => DtzScoreRange::draw(),
                    Some(false) => match legal_moves(position) {
                        None => DtzScoreRange::illegal(),
                        Some(moves) => {
                            if moves.len() == 0 {
                                old_score
                            } else {
                                self.best_move(prev_positions, position, &moves)
                            }
                        },
                    },
                },
            },
        }
    }

    /// The range of the index `pos_index` after one more sweep over the
    /// ranges `prev_positions`.
    pub fn score_position(&self, prev_positions: &Vec<DtzScoreRange>, pos_index: usize) -> (r: DtzScoreRange)
        requires
            self.wf(),
            pos_index < prev_positions@.len(),
        ensures
            r@ == position_score(
                self.material,
                self.child_tables@,
                ranges_of(prev_positions@),
                pos_index as int,
            ),
    {
        let old_score = prev_positions[pos_index];
        if old_score.is_illegal() || old_score.is_certain() {
            return old_score;
        }
        match self.position_indexer.index_to_position(pos_index) {
            Ok(position) => self.score_played(prev_positions, &position, old_score),
            Err(PositionMappingError::InvalidPosition(_)) => DtzScoreRange::illegal(),
            Err(PositionMappingError::TwoPiecesOnSameSquare) => DtzScoreRange::illegal(),
            Err(_) => old_score,
        }
    }

    /// One sweep: every index gets its range from the ranges of the sweep
    /// before. Gives the number of indices whose range changed, and the
    /// ranges of the sweep before.
    pub fn step(&mut self, positions_next: Vec<DtzScoreRange>) -> (r: (usize, Vec<DtzScoreRange>))
        requires
            old(self).wf(),
            positions_next@.len() == old(self).positions@.len(),
        ensures
            final(self).wf(),
            final(self).material == old(self).material,
            final(self).child_tables@ == old(self).child_tables@,
            final(self).child_indexers@ == old(self).child_indexers@,
            final(self).loaded_child_tables@ == old(self).loaded_child_tables@,
            final(self).missing_child_tables@ == old(self).missing_child_tables@,
            final(self).ranges() == swept(
                old(self).material,
                old(self).child_tables@,
                old(self).ranges(),
            ),
            r.1@ == old(self).positions@,
            r.0 == count_changed(old(self).ranges(), final(self).ranges(), old(self).positions@.len()),
    {
        let mut positions_next = positions_next;
        let n = self.positions.len();
        let mut updates: usize = 0;
        let mut i: usize = 0;
        let ghost prev = self.ranges();
        let ghost target = swept(self.material, self.child_tables@, prev);
        while i < n
            invariant
                i <= n,
                n == self.positions@.len(),
                n == positions_next@.len(),
                *self == *old(self),
                self.wf(),
                prev == self.ranges(),
                target == swept(self.material, self.child_tables@, prev),
                forall|k: int| 0 <= k < i ==> (#[trigger] positions_next@[k])@ == target[k],
                updates == count_changed(prev, target, i as nat),
                updates <= i,
            decreases n - i,
        {
            let old_score = self.positions[i];
            let new_score = self.score_position(&self.positions, i);
            positions_next[i] = new_score;
            proof {
                DtzScoreRange::lemma_view_injective(new_score, old_score);
                assert(prev[i as int] == old_score@);
            }
            if new_score != old_score {
                updates += 1;
            }
            i += 1;
        }
        proof {
            assert(ranges_of(positions_next@) =~= target);
        }
        std::mem::swap(&mut self.positions, &mut positions_next);
        (updates, positions_next)
    }

    /// Sweeps until a sweep changes nothing, at most `MAX_STEPS` times.
    /// Gives the number of sweeps made; the ranges are then at rest. Where
    /// the last of `MAX_STEPS` sweeps still changed a range, the solver
    /// gives up.
    pub fn solve(&mut self) -> (r: Result<usize, IterationLimitExceeded>)
        requires
            old(self).wf(),
        ensures
            final(self).wf(),
            final(self).material == old(self).material,
            final(self).child_tables@ == old(self).child_tables@,
            match r {
                Ok(sweeps) => 1 <= sweeps <= MAX_STEPS && final(self).ranges() == swept_times(
                    old(self).material,
                    old(self).child_tables@,
                    old(self).ranges(),
                    sweeps as nat,
                ) && swept(old(self).material, old(self).child_tables@, final(self).ranges())
                    == final(self).ranges(),
                Err(_) => final(self).ranges() == swept_times(
                    old(self).material,
                    old(self).child_tables@,
                    old(self).ranges(),
                    MAX_STEPS as nat,
                ) && final(self).ranges() != swept_times(
                    old(self).material,
                    old(self).child_tables@,
                    old(self).ranges(),
                    (MAX_STEPS - 1) as nat,
                ),
            },
    {
        let n = self.positions.len();
        let mut positions_next: Vec<DtzScoreRange> = Vec::with_capacity(n);
        let mut k: usize = 0;
        while k < n
            invariant
                k <= n,
                positions_next@.len() == k,
            decreases n - k,
        {
            positions_next.push(DtzScoreRange::unknown());
            k += 1;
        }
        let ghost first = self.ranges();
        let mut it: usize = 0;
        while it < MAX_STEPS
            invariant
                it < MAX_STEPS,
                self.wf(),
                self.material == old(self).material,
                self.child_tables@ == old(self).child_tables@,
                positions_next@.len() == self.positions@.len(),
                first == old(self).ranges(),
                self.ranges() == swept_times(self.material, self.child_tables@, first, it as nat),
            decreases MAX_STEPS - it,
        {
            let ghost before = self.ranges();
            let (updates, previous) = self.step(positions_next);
            positions_next = previous;
            it += 1;
            proof {
                assert(positions_next@.len() == self.positions@.len());
            }
            if updates == 0 {
                proof {
                    lemma_nothing_changed(before, self.ranges(), before.len());
                    assert(before =~= self.ranges());
                }
                return Ok(it);
            }
            if it == MAX_STEPS {
                proof {
                    lemma_something_changed(before, self.ranges(), before.len());
                }
                return Err(IterationLimitExceeded);
            }
        }
        Err(IterationLimitExceeded)
    }

    /// The finished table: each range as the win/draw/loss value that it
    /// projects to. `None` where a range projects to no value.
    pub fn to_wdl_table(&self) -> (r: Option<WdlTable>)
        ensures
            match r {
                Some(table) => table.material == self.material && table.positions@.len()
                    == self.positions@.len() && forall|i: int|
                    0 <= i < self.positions@.len() ==> Some(#[trigger] table.positions@[i])
                        == wdl_of_range(self.positions@[i]@),
                None => exists|i: int|
                    0 <= i < self.positions@.len() && wdl_of_range(
                        (#[trigger] self.positions@[i])@,
                    ).is_none(),
            },
    {
        let mut positions: Vec<WdlScoreRange> = Vec::with_capacity(self.positions.len());
        let mut i: usize = 0;
        while i < self.positions.len()
            invariant
                i <= self.positions@.len(),
                positions@.len() == i,
                forall|k: int|
                    0 <= k < i ==> Some(#[trigger] positions@[k]) == wdl_of_range(
                        self.positions@[k]@,
                    ),
            decreases self.positions@.len() - i,
        {
            match WdlScoreRange::try_from_dtz(self.positions[i]) {
                Some(value) => {
                    positions.push(value);
                },
                None => {
                    return None;
                },
            }
            i += 1;
        }
        Some(WdlTable { material: self.material, positions })
    }
}

/// Where a range differs among the first `n`, the sequences differ.
pub proof fn lemma_something_changed(a: Seq<(int, int)>, b: Seq<(int, int)>, n: nat)
    requires
        count_changed(a, b, n) > 0,
    ensures
        a != b,
    decreases n,
{
    if n > 0 {
        if a[n - 1] == b[n - 1] {
            lemma_something_changed(a, b, (n - 1) as nat);
        }
    }
}

/// What a sequence holds after one more member.
pub proof fn lemma_push_contains(s: Seq<MaterialKey>, added: MaterialKey, key: MaterialKey)
    ensures
        s.push(added).contains(key) <==> (s.contains(key) || key == added),
{
    if s.push(added).contains(key) {
        let i = choose|i: int| 0 <= i < s.push(added).len() && s.push(added)[i] == key;
        if i < s.len() {
            assert(s[i] == key);
        }
    }
    if s.contains(key) {
        let i = choose|i: int| 0 <= i < s.len() && s[i] == key;
        assert(s.push(added)[i] == key);
    }
    if key == added {
        assert(s.push(added)[s.len() as int] == key);
    }
}

/// The first table of `tables` for the material `key` that has one value
/// for each index of the material, with the indexer of the material.
fn find_table(tables: &Vec<WdlTable>, key: &MaterialKey) -> (r: Option<(usize, PositionIndexer)>)
    ensures
        match r {
            Some((slot, indexer)) => slot < tables@.len() && tables@[slot as int].material == *key
                && indexer.wf() && indexer.material() == *key && tables@[slot as int].positions@.len()
                == total_positions_of(*key) && fitting_slot(tables@, *key, 0) == Some(slot as int),
            None => forall|j: int|
                0 <= j < tables@.len() ==> !((#[trigger] tables@[j]).material == *key
                    && tables@[j].positions@.len() == total_positions_of(*key)),
        },
{
    let indexer = match PositionIndexer::try_new(*key) {
        Some(indexer) => indexer,
        None => {
            proof {
                assert forall|j: int| 0 <= j < tables@.len() implies !((
                #[trigger] tables@[j]).material == *key && tables@[j].positions@.len()
                    == total_positions_of(*key)) by {
                    assert(tables@[j].positions@.len() == tables@[j].positions.len());
                }
            }
            return None;
        },
    };
    let total = indexer.total_positions();
    let mut slot: usize = 0;
    while slot < tables.len()
        invariant
            slot <= tables@.len(),
            indexer.wf(),
            indexer.material() == *key,
            total == total_positions_of(*key),
            fitting_slot(tables@, *key, 0) == fitting_slot(tables@, *key, slot as nat),
            forall|j: int|
                0 <= j < slot ==> !((#[trigger] tables@[j]).material == *key
                    && tables@[j].positions@.len() == total_positions_of(*key)),
        decreases tables@.len() - slot,
    {
        if tables[slot].material == *key && tables[slot].positions.len() == total {
            return Some((slot, indexer));
        }
        slot += 1;
    }
    None
}

/// A copy of a sequence of values.
fn copy_values(values: &Vec<WdlScoreRange>) -> (r: Vec<WdlScoreRange>)
    ensures
        r@ == values@,
{
    let mut out: Vec<WdlScoreRange> = Vec::with_capacity(values.len());
    let mut i: usize = 0;
    while i < values.len()
        invariant
            i <= values@.len(),
            out@ == values@.take(i as int),
        decreases values@.len() - i,
    {
        out.push(values[i]);
        proof {
            assert(values@.take(i + 1) =~= values@.take(i as int).push(values@[i as int]));
        }
        i += 1;
    }
    proof {
        assert(values@.take(values@.len() as int) =~= values@);
    }
    out
}

} // verus!
