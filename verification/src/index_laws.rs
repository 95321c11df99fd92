//! The index of a position leads back to the position.

use crate::bitboard::{
    count_below, has_square, lemma_extensional, lemma_union_intersection, lemma_with_square,
    lemma_without_square, square_count, DARK_SQUARES, LIGHT_SQUARES,
};
use crate::material_key::hb_piece::{Color, HbPiece, HbPieceRole};
use crate::material_key::progress::{lemma_count_with, lemma_count_without};
use crate::material_key::MaterialKey;
use crate::position::{standing, Board, BoardRole, Piece, Position};
use crate::position_indexer::{
    board_piece, digit_of_square, digits_value, index_of_position, lemma_radix_product_grows,
    lowest_from, nth_dark_square_of, nth_light_square_of, placed, position_of_index,
    radix_of, radix_product, square_of_digit, squares_for, total_positions_of,
};
use vstd::prelude::*;

verus! {

/// Whether the sets of the board agree on the square `t`: it is in the
/// set of a color and in the set of a role exactly where `standing` says so.
pub open spec fn tidy_at(b: Board, t: int) -> bool {
    let s = standing(b, t);
    &&& has_square(b.white, t) == (s.is_some() && s.unwrap().color == Color::White)
    &&& has_square(b.black, t) == (s.is_some() && s.unwrap().color == Color::Black)
    &&& has_square(b.pawns, t) == (s.is_some() && s.unwrap().role == BoardRole::Pawn)
    &&& has_square(b.knights, t) == (s.is_some() && s.unwrap().role == BoardRole::Knight)
    &&& has_square(b.bishops, t) == (s.is_some() && s.unwrap().role == BoardRole::Bishop)
    &&& has_square(b.rooks, t) == (s.is_some() && s.unwrap().role == BoardRole::Rook)
    &&& has_square(b.queens, t) == (s.is_some() && s.unwrap().role == BoardRole::Queen)
    &&& has_square(b.kings, t) == (s.is_some() && s.unwrap().role == BoardRole::King)
}

/// A board on which every square holds at most one piece of one color.
pub open spec fn tidy(b: Board) -> bool {
    forall|t: int| 0 <= t < 64 ==> #[trigger] tidy_at(b, t)
}

/// Whether a piece of the kind `piece` stands on `t`: for a bishop the
/// color of the square counts.
pub open spec fn kind_on(b: Board, t: int, piece: HbPiece) -> bool {
    standing(b, t) == Some(board_piece(piece)) && has_square(squares_for(piece.role), t)
}

/// The squares of the pieces of one kind, as `digits_value` looks for them.
pub open spec fn kind_set(b: Board, piece: HbPiece) -> u64 {
    squares_for(piece.role) & b.spec_by_piece(board_piece(piece))
}

/// Among the pieces from `from` on, the number of those of the kind `piece`.
pub open spec fn later_of_kind(pieces: Seq<HbPiece>, piece: HbPiece, from: nat) -> nat
    decreases pieces.len() - from,
{
    if from >= pieces.len() {
        0
    } else {
        later_of_kind(pieces, piece, from + 1) + if pieces[from as int] == piece {
            1nat
        } else {
            0nat
        }
    }
}

/// Among the squares below `n`, the number of those that hold a piece of
/// the kind `piece`.
pub open spec fn kind_count(b: Board, piece: HbPiece, n: nat) -> nat
    decreases n,
{
    if n == 0 {
        0
    } else {
        kind_count(b, piece, (n - 1) as nat) + if kind_on(b, n - 1, piece) {
            1nat
        } else {
            0nat
        }
    }
}

/// Whether two boards agree on the square `t` in every set.
pub open spec fn same_bits(a: Board, b: Board, t: int) -> bool {
    &&& has_square(a.white, t) == has_square(b.white, t)
    &&& has_square(a.black, t) == has_square(b.black, t)
    &&& has_square(a.pawns, t) == has_square(b.pawns, t)
    &&& has_square(a.knights, t) == has_square(b.knights, t)
    &&& has_square(a.bishops, t) == has_square(b.bishops, t)
    &&& has_square(a.rooks, t) == has_square(b.rooks, t)
    &&& has_square(a.queens, t) == has_square(b.queens, t)
    &&& has_square(a.kings, t) == has_square(b.kings, t)
}

/// Two boards with the same members in every set are the same board.
pub proof fn lemma_same_board(a: Board, b: Board)
    requires
        forall|t: int| 0 <= t < 64 ==> #[trigger] same_bits(a, b, t),
    ensures
        a == b,
{
    assert forall|t: int| 0 <= t < 64 implies has_square(a.white, t) == has_square(b.white, t) by {
        assert(same_bits(a, b, t));
    }
    assert forall|t: int| 0 <= t < 64 implies has_square(a.black, t) == has_square(b.black, t) by {
        assert(same_bits(a, b, t));
    }
    assert forall|t: int| 0 <= t < 64 implies has_square(a.pawns, t) == has_square(b.pawns, t) by {
        assert(same_bits(a, b, t));
    }
    assert forall|t: int| 0 <= t < 64 implies has_square(a.knights, t) == has_square(
        b.knights,
        t,
    ) by {
        assert(same_bits(a, b, t));
    }
    assert forall|t: int| 0 <= t < 64 implies has_square(a.bishops, t) == has_square(
        b.bishops,
        t,
    ) by {
        assert(same_bits(a, b, t));
    }
    assert forall|t: int| 0 <= t < 64 implies has_square(a.rooks, t) == has_square(b.rooks, t) by {
        assert(same_bits(a, b, t));
    }
    assert forall|t: int| 0 <= t < 64 implies has_square(a.queens, t) == has_square(
        b.queens,
        t,
    ) by {
        assert(same_bits(a, b, t));
    }
    assert forall|t: int| 0 <= t < 64 implies has_square(a.kings, t) == has_square(b.kings, t) by {
        assert(same_bits(a, b, t));
    }
    lemma_extensional(a.white, b.white);
    lemma_extensional(a.black, b.black);
    lemma_extensional(a.pawns, b.pawns);
    lemma_extensional(a.knights, b.knights);
    lemma_extensional(a.bishops, b.bishops);
    lemma_extensional(a.rooks, b.rooks);
    lemma_extensional(a.queens, b.queens);
    lemma_extensional(a.kings, b.kings);
}

/// Two tidy boards on which the same pieces stand are the same board.
pub proof fn lemma_same_standing(a: Board, b: Board)
    requires
        tidy(a),
        tidy(b),
        forall|t: int| 0 <= t < 64 ==> #[trigger] standing(a, t) == standing(b, t),
    ensures
        a == b,
{
    assert forall|t: int| 0 <= t < 64 implies #[trigger] same_bits(a, b, t) by {
        assert(tidy_at(a, t));
        assert(tidy_at(b, t));
        assert(standing(a, t) == standing(b, t));
    }
    lemma_same_board(a, b);
}

/// What stands on a tidy board after a square was emptied.
pub proof fn lemma_emptied(b: Board, sq: int)
    requires
        0 <= sq < 64,
        tidy(b),
    ensures
        tidy(b.without_piece(sq)),
        forall|t: int|
            0 <= t < 64 ==> #[trigger] standing(b.without_piece(sq), t) == (if t == sq {
                None
            } else {
                standing(b, t)
            }),
{
    assert forall|t: int| 0 <= t < 64 implies #[trigger] tidy_at(b.without_piece(sq), t) by {
        assert(tidy_at(b, t));
        lemma_without_piece(b, sq, t);
    }
    assert forall|t: int| 0 <= t < 64 implies #[trigger] standing(b.without_piece(sq), t) == (if t
        == sq {
        None
    } else {
        standing(b, t)
    }) by {
        assert(tidy_at(b, t));
        lemma_without_piece(b, sq, t);
    }
}

/// What stands on a tidy board after a piece was put on a square.
pub proof fn lemma_filled(b: Board, sq: int, piece: Piece)
    requires
        0 <= sq < 64,
        tidy(b),
    ensures
        tidy(b.with_piece(sq, piece)),
        forall|t: int|
            0 <= t < 64 ==> #[trigger] standing(b.with_piece(sq, piece), t) == (if t == sq {
                Some(piece)
            } else {
                standing(b, t)
            }),
{
    assert forall|t: int| 0 <= t < 64 implies #[trigger] tidy_at(b.with_piece(sq, piece), t) by {
        assert(tidy_at(b, t));
        lemma_with_piece(b, sq, piece, t);
    }
    assert forall|t: int| 0 <= t < 64 implies #[trigger] standing(b.with_piece(sq, piece), t)
        == (if t == sq {
        Some(piece)
    } else {
        standing(b, t)
    }) by {
        assert(tidy_at(b, t));
        lemma_with_piece(b, sq, piece, t);
    }
}

/// Whether a square of a tidy board is free.
pub proof fn lemma_free_square(b: Board, t: int)
    requires
        0 <= t < 64,
        tidy(b),
    ensures
        standing(b, t).is_none() == !has_square(b.spec_occupied(), t),
{
    lemma_union_intersection(b.white, b.black, t);
}

/// What stands on a board after a square was emptied.
pub proof fn lemma_without_piece(b: Board, sq: int, t: int)
    requires
        0 <= sq < 64,
        0 <= t < 64,
        tidy_at(b, t),
    ensures
        standing(b.without_piece(sq), t) == (if t == sq {
            None
        } else {
            standing(b, t)
        }),
        tidy_at(b.without_piece(sq), t),
{
    lemma_without_square(b.white, sq, t);
    lemma_without_square(b.black, sq, t);
    lemma_without_square(b.pawns, sq, t);
    lemma_without_square(b.knights, sq, t);
    lemma_without_square(b.bishops, sq, t);
    lemma_without_square(b.rooks, sq, t);
    lemma_without_square(b.queens, sq, t);
    lemma_without_square(b.kings, sq, t);
}

/// What stands on a board after a piece was put on a square.
pub proof fn lemma_with_piece(b: Board, sq: int, piece: Piece, t: int)
    requires
        0 <= sq < 64,
        0 <= t < 64,
        tidy_at(b, t),
    ensures
        standing(b.with_piece(sq, piece), t) == (if t == sq {
            Some(piece)
        } else {
            standing(b, t)
        }),
        tidy_at(b.with_piece(sq, piece), t),
{
    let e = b.without_piece(sq);
    lemma_without_piece(b, sq, t);
    lemma_with_square(e.white, sq, t);
    lemma_with_square(e.black, sq, t);
    lemma_with_square(e.pawns, sq, t);
    lemma_with_square(e.knights, sq, t);
    lemma_with_square(e.bishops, sq, t);
    lemma_with_square(e.rooks, sq, t);
    lemma_with_square(e.queens, sq, t);
    lemma_with_square(e.kings, sq, t);
}

/// The light and the dark squares.
pub proof fn lemma_square_colors(t: int)
    requires
        0 <= t < 64,
    ensures
        has_square(LIGHT_SQUARES, t) == ((t / 8 + t % 8) % 2 == 1),
        has_square(DARK_SQUARES, t) == ((t / 8 + t % 8) % 2 == 0),
        has_square(0xFFFF_FFFF_FFFF_FFFFu64, t),
{
    let u = t as u64;
    assert(((0x55AA_55AA_55AA_55AAu64 >> u) & 1 == 1) == ((u / 8 + u % 8) % 2 == 1)) by (bit_vector)
        requires
            u < 64,
    ;
    assert(((0xAA55_AA55_AA55_AA55u64 >> u) & 1 == 1) == ((u / 8 + u % 8) % 2 == 0)) by (bit_vector)
        requires
            u < 64,
    ;
    assert((0xFFFF_FFFF_FFFF_FFFFu64 >> u) & 1 == 1) by (bit_vector)
        requires
            u < 64,
    ;
}

/// The square of a digit is a square for the role, and its digit is the digit.
pub proof fn lemma_square_of_digit(role: HbPieceRole, digit: int)
    requires
        0 <= digit < radix_of(role),
    ensures
        0 <= square_of_digit(role, digit) < 64,
        has_square(squares_for(role), square_of_digit(role, digit)),
        digit_of_square(role, square_of_digit(role, digit)) == digit,
{
    lemma_square_colors(square_of_digit(role, digit));
}

/// A square for the role is the square of its digit.
pub proof fn lemma_digit_of_square(role: HbPieceRole, sq: int)
    requires
        0 <= sq < 64,
        has_square(squares_for(role), sq),
    ensures
        0 <= digit_of_square(role, sq) < radix_of(role),
        square_of_digit(role, digit_of_square(role, sq)) == sq,
{
    lemma_square_colors(sq);
}

/// The members of the set of a kind are the squares on which the kind stands.
pub proof fn lemma_kind_set(b: Board, piece: HbPiece, t: int)
    requires
        0 <= t < 64,
        tidy_at(b, t),
    ensures
        has_square(kind_set(b, piece), t) == kind_on(b, t, piece),
{
    let p = board_piece(piece);
    lemma_union_intersection(squares_for(piece.role), b.spec_by_piece(p), t);
    lemma_union_intersection(b.spec_by_color(p.color), b.spec_by_role(p.role), t);
}

/// The lowest member of a set that has a member.
pub proof fn lemma_lowest(bb: u64, from: nat, t: int)
    requires
        from <= t < 64,
        has_square(bb, t),
    ensures
        lowest_from(bb, from).is_some(),
        from <= lowest_from(bb, from).unwrap() <= t,
        has_square(bb, lowest_from(bb, from).unwrap()),
    decreases 64 - from,
{
    if !has_square(bb, from as int) {
        lemma_lowest(bb, from + 1, t);
    }
}

/// Where a kind is counted, it stands on a square.
pub proof fn lemma_kind_counted(b: Board, piece: HbPiece, n: nat)
    requires
        kind_count(b, piece, n) > 0,
    ensures
        exists|t: int| 0 <= t < n && #[trigger] kind_on(b, t, piece),
    decreases n,
{
    if n > 0 {
        if kind_on(b, n - 1, piece) {
        } else {
            lemma_kind_counted(b, piece, (n - 1) as nat);
            let t = choose|t: int| 0 <= t < n - 1 && #[trigger] kind_on(b, t, piece);
            assert(kind_on(b, t, piece));
        }
    }
}

/// Where no kind is counted, none stands on a square.
pub proof fn lemma_kind_not_counted(b: Board, piece: HbPiece, n: nat, t: int)
    requires
        kind_count(b, piece, n) == 0,
        0 <= t < n,
    ensures
        !kind_on(b, t, piece),
    decreases n,
{
    if t < n - 1 {
        lemma_kind_not_counted(b, piece, (n - 1) as nat, t);
    }
}

/// The count of a kind after a square changed hands.
pub proof fn lemma_kind_count_changed(
    before: Board,
    after: Board,
    sq: int,
    piece: HbPiece,
    n: nat,
)
    requires
        0 <= sq < 64,
        n <= 64,
        forall|t: int| 0 <= t < 64 && t != sq ==> #[trigger] standing(after, t) == standing(
            before,
            t,
        ),
    ensures
        kind_count(after, piece, n) == kind_count(before, piece, n) + (if sq < n && kind_on(
            after,
            sq,
            piece,
        ) {
            1int
        } else {
            0int
        }) - (if sq < n && kind_on(before, sq, piece) {
            1int
        } else {
            0int
        }),
    decreases n,
{
    if n > 0 {
        lemma_kind_count_changed(before, after, sq, piece, (n - 1) as nat);
        if n - 1 != sq {
            assert(standing(after, n - 1) == standing(before, n - 1));
        }
    }
}

/// A piece stands on a square as one kind only.
pub proof fn lemma_one_kind(b: Board, t: int, a: HbPiece, c: HbPiece)
    requires
        0 <= t < 64,
        kind_on(b, t, a),
        kind_on(b, t, c),
    ensures
        a == c,
{
    lemma_square_colors(t);
}

/// The state of a board as the pieces of a key are put on it: the board
/// is tidy, its pawns are the pawns of the key, nothing else stands on it
/// but pieces of the kinds of the key, and of each kind as many as `counts`
/// says.
pub open spec fn holds(
    b: Board,
    key: MaterialKey,
    counts: spec_fn(HbPiece) -> nat,
) -> bool {
    &&& tidy(b)
    &&& forall|t: int|
        0 <= t < 64 ==> (#[trigger] standing(b, t) == Some(
            Piece { color: Color::White, role: BoardRole::Pawn },
        )) == has_square(key.pawns.white, t)
    &&& forall|t: int|
        0 <= t < 64 ==> (#[trigger] standing(b, t) == Some(
            Piece { color: Color::Black, role: BoardRole::Pawn },
        )) == has_square(key.pawns.black, t)
    &&& forall|piece: HbPiece| #[trigger] kind_count(b, piece, 64) == counts(piece)
}

/// The pawns of a key alone.
pub proof fn lemma_pawns_hold(key: MaterialKey)
    requires
        key.pawns.wf(),
    ensures
        holds(Board::of_pawns(key.pawns), key, |piece: HbPiece| 0nat),
{
    let b = Board::of_pawns(key.pawns);
    let w = key.pawns.white;
    let k = key.pawns.black;
    assert forall|t: int| 0 <= t < 64 implies #[trigger] tidy_at(b, t) by {
        lemma_pawn_square(key, t);
    }
    assert forall|t: int| 0 <= t < 64 implies (#[trigger] standing(b, t) == Some(
        Piece { color: Color::White, role: BoardRole::Pawn },
    )) == has_square(w, t) by {
        lemma_pawn_square(key, t);
    }
    assert forall|t: int| 0 <= t < 64 implies (#[trigger] standing(b, t) == Some(
        Piece { color: Color::Black, role: BoardRole::Pawn },
    )) == has_square(k, t) by {
        lemma_pawn_square(key, t);
    }
    assert forall|t: int| 0 <= t < 64 implies (#[trigger] standing(b, t)).is_none() || standing(
        b,
        t,
    ).unwrap().role == BoardRole::Pawn by {
        lemma_pawn_square(key, t);
    }
    assert forall|piece: HbPiece| #[trigger] kind_count(b, piece, 64) == 0 by {
        lemma_no_kind_among_pawns(b, piece, 64);
    }
}

/// A square of the board of the pawns of a key.
proof fn lemma_pawn_square(key: MaterialKey, t: int)
    requires
        key.pawns.wf(),
        0 <= t < 64,
    ensures
        tidy_at(Board::of_pawns(key.pawns), t),
        (standing(Board::of_pawns(key.pawns), t) == Some(
            Piece { color: Color::White, role: BoardRole::Pawn },
        )) == has_square(key.pawns.white, t),
        (standing(Board::of_pawns(key.pawns), t) == Some(
            Piece { color: Color::Black, role: BoardRole::Pawn },
        )) == has_square(key.pawns.black, t),
        standing(Board::of_pawns(key.pawns), t).is_none() || standing(
            Board::of_pawns(key.pawns),
            t,
        ).unwrap().role == BoardRole::Pawn,
{
    let w = key.pawns.white;
    let k = key.pawns.black;
    lemma_union_intersection(w, k, t);
    crate::bitboard::lemma_empty(t);
    assert(has_square(w & k, t) == false);
}

proof fn lemma_no_kind_among_pawns(b: Board, piece: HbPiece, n: nat)
    requires
        n <= 64,
        forall|t: int|
            0 <= t < 64 ==> (#[trigger] standing(b, t)).is_none() || standing(b, t).unwrap().role
                == BoardRole::Pawn,
    ensures
        kind_count(b, piece, n) == 0,
    decreases n,
{
    if n > 0 {
        lemma_no_kind_among_pawns(b, piece, (n - 1) as nat);
        assert(standing(b, n - 1).is_none() || standing(b, n - 1).unwrap().role == BoardRole::Pawn);
    }
}

/// The board after one more piece of the key was put on a free square.
pub proof fn lemma_put_holds(
    b: Board,
    key: MaterialKey,
    counts: spec_fn(HbPiece) -> nat,
    piece: HbPiece,
    sq: int,
)
    requires
        holds(b, key, counts),
        0 <= sq < 64,
        has_square(squares_for(piece.role), sq),
        !has_square(b.spec_occupied(), sq),
    ensures
        holds(
            b.with_piece(sq, board_piece(piece)),
            key,
            |other: HbPiece|
                if other == piece {
                    counts(other) + 1
                } else {
                    counts(other)
                },
        ),
{
    let after = b.with_piece(sq, board_piece(piece));
    lemma_free_square(b, sq);
    lemma_filled(b, sq, board_piece(piece));
    assert forall|t: int| 0 <= t < 64 implies (#[trigger] standing(after, t) == Some(
        Piece { color: Color::White, role: BoardRole::Pawn },
    )) == has_square(key.pawns.white, t) by {
        assert((standing(b, t) == Some(Piece { color: Color::White, role: BoardRole::Pawn }))
            == has_square(key.pawns.white, t));
    }
    assert forall|t: int| 0 <= t < 64 implies (#[trigger] standing(after, t) == Some(
        Piece { color: Color::Black, role: BoardRole::Pawn },
    )) == has_square(key.pawns.black, t) by {
        assert((standing(b, t) == Some(Piece { color: Color::Black, role: BoardRole::Pawn }))
            == has_square(key.pawns.black, t));
    }
    assert forall|other: HbPiece| #[trigger] kind_count(after, other, 64) == (if other == piece {
        counts(other) + 1
    } else {
        counts(other)
    }) by {
        lemma_kind_count_changed(b, after, sq, other, 64);
        assert(kind_count(b, other, 64) == counts(other));
        assert(standing(after, sq) == Some(board_piece(piece)));
        assert(kind_on(after, sq, piece));
        if kind_on(after, sq, other) {
            lemma_one_kind(after, sq, other, piece);
        }
    }
}

/// The board that holds all pieces of a key holds of each kind as many
/// as the key has from the first piece on.
pub proof fn lemma_placed_holds(
    b: Board,
    key: MaterialKey,
    counts: spec_fn(HbPiece) -> nat,
    pieces: Seq<HbPiece>,
    remaining: nat,
    k: nat,
)
    requires
        holds(b, key, counts),
        k <= pieces.len(),
        placed(b, pieces, remaining, k).is_some(),
    ensures
        holds(
            placed(b, pieces, remaining, k).unwrap(),
            key,
            |piece: HbPiece| counts(piece) + later_of_kind(pieces, piece, k),
        ),
    decreases pieces.len() - k,
{
    let end = placed(b, pieces, remaining, k).unwrap();
    if k >= pieces.len() {
        assert forall|piece: HbPiece| #[trigger] kind_count(end, piece, 64) == counts(piece)
            + later_of_kind(pieces, piece, k) by {
            assert(kind_count(b, piece, 64) == counts(piece));
        }
    } else {
        let piece = pieces[k as int];
        let radix = radix_of(piece.role);
        let sq = square_of_digit(piece.role, (remaining % radix) as int);
        lemma_square_of_digit(piece.role, (remaining % radix) as int);
        lemma_put_holds(b, key, counts, piece, sq);
        let next = b.with_piece(sq, board_piece(piece));
        let more = |other: HbPiece|
            if other == piece {
                counts(other) + 1
            } else {
                counts(other)
            };
        lemma_placed_holds(next, key, more, pieces, remaining / radix, k + 1);
        assert forall|other: HbPiece| #[trigger] kind_count(end, other, 64) == counts(other)
            + later_of_kind(pieces, other, k) by {
            assert(kind_count(end, other, 64) == more(other) + later_of_kind(pieces, other, k + 1));
        }
    }
}

/// What is left of a board and what was taken from it: the pieces of
/// `whole` stand either on `left` or, those that were taken, on `taken`,
/// which holds the pawns as well; a piece that is no pawn stands on one of
/// the two only.
pub open spec fn split(whole: Board, taken: Board, left: Board) -> bool {
    &&& tidy(whole)
    &&& tidy(taken)
    &&& tidy(left)
    &&& forall|t: int|
        0 <= t < 64 ==> (#[trigger] standing(left, t)).is_none() || standing(left, t) == standing(
            whole,
            t,
        )
    &&& forall|t: int|
        0 <= t < 64 ==> (#[trigger] standing(taken, t)).is_none() || standing(taken, t)
            == standing(whole, t)
    &&& forall|t: int|
        0 <= t < 64 ==> (#[trigger] standing(whole, t)).is_none() || standing(left, t).is_some()
            || standing(taken, t).is_some()
    &&& forall|t: int|
        0 <= t < 64 && (#[trigger] standing(left, t)).is_some() && standing(taken, t).is_some()
            ==> standing(whole, t).unwrap().role == BoardRole::Pawn
    &&& forall|t: int|
        0 <= t < 64 && (#[trigger] standing(whole, t)).is_some() && standing(
            whole,
            t,
        ).unwrap().role == BoardRole::Pawn ==> standing(taken, t).is_some()
}

/// Taking the pieces of a key from a board on which they stand, each from
/// the lowest square of its kind, and putting them back by the digits
/// found gives the board again.
pub proof fn lemma_take_and_put(
    whole: Board,
    taken: Board,
    left: Board,
    pieces: Seq<HbPiece>,
    k: nat,
)
    requires
        split(whole, taken, left),
        k <= pieces.len(),
        forall|piece: HbPiece| #[trigger] kind_count(left, piece, 64) == later_of_kind(pieces, piece, k),
    ensures
        digits_value(left, pieces, k).is_some(),
        digits_value(left, pieces, k).unwrap() < radix_product_from(pieces, k),
        placed(taken, pieces, digits_value(left, pieces, k).unwrap(), k) == Some(whole),
    decreases pieces.len() - k,
{
    if k >= pieces.len() {
        // nothing but pawns is left: what was taken is the whole board
        assert forall|t: int| 0 <= t < 64 implies #[trigger] standing(taken, t) == standing(
            whole,
            t,
        ) by {
            if standing(whole, t).is_some() && standing(taken, t).is_none() {
                let p = standing(whole, t).unwrap();
                assert(standing(left, t) == Some(p));
                assert(p.role != BoardRole::Pawn);
                let kind = kind_of(p, t);
                lemma_square_colors(t);
                assert(kind_on(left, t, kind));
                assert(kind_count(left, kind, 64) == 0);
                lemma_kind_not_counted(left, kind, 64, t);
            }
        }
        lemma_same_standing(taken, whole);
    } else {
        let piece = pieces[k as int];
        let set = kind_set(left, piece);
        assert(kind_count(left, piece, 64) == later_of_kind(pieces, piece, k));
        lemma_kind_counted(left, piece, 64);
        let some = choose|t: int| 0 <= t < 64 && #[trigger] kind_on(left, t, piece);
        assert(tidy_at(left, some));
        lemma_kind_set(left, piece, some);
        lemma_lowest(set, 0, some);
        let sq = lowest_from(set, 0).unwrap();
        assert(tidy_at(left, sq));
        lemma_kind_set(left, piece, sq);
        assert(kind_on(left, sq, piece));
        lemma_digit_of_square(piece.role, sq);
        let digit = digit_of_square(piece.role, sq);
        let radix = radix_of(piece.role);
        let next_left = left.without_piece(sq);
        let next_taken = taken.with_piece(sq, board_piece(piece));
        // the square is free on the board of the taken pieces
        assert(standing(left, sq) == standing(whole, sq));
        assert(standing(taken, sq).is_none()) by {
            if standing(taken, sq).is_some() {
                assert(standing(whole, sq).unwrap().role == BoardRole::Pawn);
            }
        }
        lemma_free_square(taken, sq);
        lemma_emptied(left, sq);
        lemma_filled(taken, sq, board_piece(piece));
        assert(split(whole, next_taken, next_left)) by {
            assert forall|t: int| 0 <= t < 64 implies (#[trigger] standing(next_left, t)).is_none()
                || standing(next_left, t) == standing(whole, t) by {
                assert(standing(left, t).is_none() || standing(left, t) == standing(whole, t));
            }
            assert forall|t: int| 0 <= t < 64 implies (#[trigger] standing(
                next_taken,
                t,
            )).is_none() || standing(next_taken, t) == standing(whole, t) by {
                assert(standing(taken, t).is_none() || standing(taken, t) == standing(whole, t));
            }
            assert forall|t: int| 0 <= t < 64 implies (#[trigger] standing(whole, t)).is_none()
                || standing(next_left, t).is_some() || standing(next_taken, t).is_some() by {
                assert(standing(next_left, t) == (if t == sq {
                    None
                } else {
                    standing(left, t)
                }));
                assert(standing(next_taken, t) == (if t == sq {
                    Some(board_piece(piece))
                } else {
                    standing(taken, t)
                }));
            }
            assert forall|t: int|
                0 <= t < 64 && (#[trigger] standing(next_left, t)).is_some() && standing(
                    next_taken,
                    t,
                ).is_some() implies standing(whole, t).unwrap().role == BoardRole::Pawn by {
                assert(standing(next_taken, t) == (if t == sq {
                    Some(board_piece(piece))
                } else {
                    standing(taken, t)
                }));
                assert(standing(left, t).is_some());
            }
            assert forall|t: int|
                0 <= t < 64 && (#[trigger] standing(whole, t)).is_some() && standing(
                    whole,
                    t,
                ).unwrap().role == BoardRole::Pawn implies standing(next_taken, t).is_some() by {
                assert(standing(next_taken, t) == (if t == sq {
                    Some(board_piece(piece))
                } else {
                    standing(taken, t)
                }));
            }
        }
        assert forall|other: HbPiece| #[trigger] kind_count(next_left, other, 64) == later_of_kind(
            pieces,
            other,
            k + 1,
        ) by {
            assert(standing(next_left, sq).is_none());
            lemma_kind_count_changed(left, next_left, sq, other, 64);
            assert(kind_count(left, other, 64) == later_of_kind(pieces, other, k));
            if kind_on(left, sq, other) {
                lemma_one_kind(left, sq, other, piece);
            }
        }
        lemma_take_and_put(whole, next_taken, next_left, pieces, k + 1);
        let rest = digits_value(next_left, pieces, k + 1).unwrap();
        let value = (digit + radix * rest) as nat;
        assert(digits_value(left, pieces, k) == Some(value));
        assert(value % radix == digit as nat && value / radix == rest) by (nonlinear_arith)
            requires
                value == digit + radix * rest,
                0 <= digit < radix,
                rest >= 0,
        ;
        let tail = radix_product_from(pieces, k + 1);
        assert(value < radix * tail) by (nonlinear_arith)
            requires
                value == digit + radix * rest,
                0 <= digit < radix,
                0 <= rest < tail,
        ;
    }
}

/// The kind as which a piece that is no pawn stands on a square.
pub open spec fn kind_of(piece: Piece, t: int) -> HbPiece {
    HbPiece {
        color: piece.color,
        role: match piece.role {
            BoardRole::King => HbPieceRole::King,
            BoardRole::Queen => HbPieceRole::Queen,
            BoardRole::Rook => HbPieceRole::Rook,
            BoardRole::Knight => HbPieceRole::Knight,
            _ => if (t / 8 + t % 8) % 2 == 1 {
                HbPieceRole::LightBishop
            } else {
                HbPieceRole::DarkBishop
            },
        },
    }
}

/// The product of the radices of the pieces from `k` on.
pub open spec fn radix_product_from(pieces: Seq<HbPiece>, k: nat) -> nat
    decreases pieces.len() - k,
{
    if k >= pieces.len() {
        1
    } else {
        radix_of(pieces[k as int].role) * radix_product_from(pieces, k + 1)
    }
}

/// The product of all radices, taken from either end.
pub proof fn lemma_radix_products(pieces: Seq<HbPiece>, k: nat)
    requires
        k <= pieces.len(),
    ensures
        radix_product(pieces, k) * radix_product_from(pieces, k) == radix_product(
            pieces,
            pieces.len(),
        ),
    decreases pieces.len() - k,
{
    if k < pieces.len() {
        lemma_radix_products(pieces, k + 1);
        let a = radix_product(pieces, k);
        let r = radix_of(pieces[k as int].role);
        let c = radix_product_from(pieces, k + 1);
        assert(a * (r * c) == (a * r) * c) by (nonlinear_arith);
    } else {
        assert(radix_product(pieces, k) * 1 == radix_product(pieces, k)) by (nonlinear_arith);
    }
}

/// The position of an index has an index of its own, and that index
/// stands for the same position: going from index to position to index
/// comes to rest after one round.
pub proof fn lemma_index_round_trip(key: MaterialKey, index: nat)
    requires
        key.wf(),
        position_of_index(key, index).is_ok(),
    ensures
        index_of_position(key, position_of_index(key, index).unwrap()).is_ok(),
        index_of_position(key, position_of_index(key, index).unwrap()).unwrap()
            < total_positions_of(key),
        position_of_index(
            key,
            index_of_position(key, position_of_index(key, index).unwrap()).unwrap(),
        ) == position_of_index(key, index),
{
    let pieces = key.spec_pieces();
    let start = Board::of_pawns(key.pawns);
    let position = position_of_index(key, index).unwrap();
    let board = position.board;
    assert(placed(start, pieces, index / 2, 0) == Some(board));
    lemma_pawns_hold(key);
    let none = |piece: HbPiece| 0nat;
    lemma_placed_holds(start, key, none, pieces, index / 2, 0);
    let all = |piece: HbPiece| none(piece) + later_of_kind(pieces, piece, 0);
    assert(holds(board, key, all));
    assert(holds(start, key, none));
    // the pawns of the board are the pawns of the key
    assert(board.spec_pawn_structure() == key.pawns) by {
        assert forall|t: int| 0 <= t < 64 implies has_square(board.pawns & board.white, t)
            == has_square(key.pawns.white, t) by {
            lemma_union_intersection(board.pawns, board.white, t);
            assert(tidy_at(board, t));
            assert((standing(board, t) == Some(Piece { color: Color::White, role: BoardRole::Pawn }))
                == has_square(key.pawns.white, t));
        }
        assert forall|t: int| 0 <= t < 64 implies has_square(board.pawns & board.black, t)
            == has_square(key.pawns.black, t) by {
            lemma_union_intersection(board.pawns, board.black, t);
            assert(tidy_at(board, t));
            assert((standing(board, t) == Some(Piece { color: Color::Black, role: BoardRole::Pawn }))
                == has_square(key.pawns.black, t));
        }
        lemma_extensional(board.pawns & board.white, key.pawns.white);
        lemma_extensional(board.pawns & board.black, key.pawns.black);
    }
    // the board splits into its pawns and all of itself
    assert(split(board, start, board)) by {
        assert forall|t: int| 0 <= t < 64 implies (#[trigger] standing(start, t)).is_none()
            || standing(start, t) == standing(board, t) by {
            assert(tidy_at(start, t));
            assert(tidy_at(board, t));
            assert((standing(start, t) == Some(Piece { color: Color::White, role: BoardRole::Pawn }))
                == has_square(key.pawns.white, t));
            assert((standing(start, t) == Some(Piece { color: Color::Black, role: BoardRole::Pawn }))
                == has_square(key.pawns.black, t));
            assert((standing(board, t) == Some(Piece { color: Color::White, role: BoardRole::Pawn }))
                == has_square(key.pawns.white, t));
            assert((standing(board, t) == Some(Piece { color: Color::Black, role: BoardRole::Pawn }))
                == has_square(key.pawns.black, t));
            lemma_union_intersection(key.pawns.white, key.pawns.black, t);
        }
        assert forall|t: int|
            0 <= t < 64 && (#[trigger] standing(board, t)).is_some() && standing(
                board,
                t,
            ).unwrap().role == BoardRole::Pawn implies standing(start, t).is_some() by {
            assert(tidy_at(start, t));
            assert(tidy_at(board, t));
            assert((standing(start, t) == Some(Piece { color: Color::White, role: BoardRole::Pawn }))
                == has_square(key.pawns.white, t));
            assert((standing(start, t) == Some(Piece { color: Color::Black, role: BoardRole::Pawn }))
                == has_square(key.pawns.black, t));
            assert((standing(board, t) == Some(Piece { color: Color::White, role: BoardRole::Pawn }))
                == has_square(key.pawns.white, t));
            assert((standing(board, t) == Some(Piece { color: Color::Black, role: BoardRole::Pawn }))
                == has_square(key.pawns.black, t));
        }
        assert forall|t: int|
            0 <= t < 64 && (#[trigger] standing(board, t)).is_some() && standing(
                start,
                t,
            ).is_some() implies standing(board, t).unwrap().role == BoardRole::Pawn by {
            assert(tidy_at(start, t));
            lemma_union_intersection(key.pawns.white, key.pawns.black, t);
            assert(standing(start, t).is_none() || standing(start, t) == standing(board, t));
        }
    }
    assert forall|piece: HbPiece| #[trigger] kind_count(board, piece, 64) == later_of_kind(
        pieces,
        piece,
        0,
    ) by {
        assert(kind_count(board, piece, 64) == all(piece));
    }
    lemma_take_and_put(board, start, board, pieces, 0);
    let value = digits_value(board, pieces, 0).unwrap();
    lemma_radix_products(pieces, 0);
    assert(radix_product(pieces, 0) == 1);
    assert(1 * radix_product_from(pieces, 0) == radix_product_from(pieces, 0)) by (nonlinear_arith);
    let turn_bit: nat = if position.turn == Color::White {
        0
    } else {
        1
    };
    let again = turn_bit + 2 * value;
    assert(index_of_position(key, position) == Ok::<nat, crate::position_indexer::PositionMappingError>(again));
    assert(again / 2 == value && again % 2 == turn_bit);
}

} // verus!
