//! Reading the text of a key gives the key back.

use crate::bitboard::{
    has_square, lemma_empty, lemma_extensional, lemma_squares_below, lemma_with_square,
    squares_of, with_square,
};
use crate::material_key::hb_piece::{role_token, HbPieceRole};
use crate::material_key::pawn_structure::PawnStructure;
use crate::material_key::piece_counts::PieceCounts;
use crate::material_key::text::{
    file_char, key_text, only_king, parse_key, parse_raw_key, parse_side, parse_squares,
    parse_tokens, pieces_text, rank_char, repeated_token, side_text, square_at, square_text,
    squares_text, text_roles, token_at,
};
use crate::material_key::{CountsByColor, MaterialKey};
use vstd::prelude::*;
use vstd::utf8::is_ascii_chars;

verus! {

/// Whether the text `t` stands in `s` from the place `pos` on.
pub open spec fn starts_at(s: Seq<char>, pos: int, t: Seq<char>) -> bool {
    &&& 0 <= pos
    &&& pos + t.len() <= s.len()
    &&& forall|i: int| 0 <= i < t.len() ==> s[pos + i] == #[trigger] t[i]
}

/// The set of the squares of a sequence, added to `acc` one by one.
pub open spec fn with_squares(acc: u64, squares: Seq<u8>) -> u64
    decreases squares.len(),
{
    if squares.len() == 0 {
        acc
    } else {
        with_squares(with_square(acc, squares[0] as int), squares.skip(1))
    }
}

proof fn lemma_starts_at_parts(s: Seq<char>, pos: int, a: Seq<char>, b: Seq<char>)
    requires
        starts_at(s, pos, a + b),
    ensures
        starts_at(s, pos, a),
        starts_at(s, pos + a.len(), b),
{
    assert forall|i: int| 0 <= i < a.len() implies s[pos + i] == #[trigger] a[i] by {
        assert((a + b)[i] == a[i]);
    }
    assert forall|i: int| 0 <= i < b.len() implies s[pos + a.len() + i] == #[trigger] b[i] by {
        assert((a + b)[a.len() + i] == b[i]);
    }
}

proof fn lemma_repeated_front(role: HbPieceRole, n: nat)
    requires
        n >= 1,
    ensures
        repeated_token(role, n) == role_token(role) + repeated_token(role, (n - 1) as nat),
    decreases n,
{
    if n == 1 {
        reveal_with_fuel(repeated_token, 2);
        assert(repeated_token(role, 1) =~= role_token(role) + repeated_token(role, 0));
    } else {
        lemma_repeated_front(role, (n - 1) as nat);
        assert(repeated_token(role, n) =~= role_token(role) + repeated_token(
            role,
            (n - 1) as nat,
        ));
    }
}

/// Reading `n` tokens of one role adds `n` to the count of the role.
proof fn lemma_parse_repeated(
    s: Seq<char>,
    pos: int,
    role: HbPieceRole,
    n: nat,
    counts: PieceCounts,
)
    requires
        role != HbPieceRole::King,
        starts_at(s, pos, repeated_token(role, n)),
        counts.of(role) + n <= 255,
    ensures
        parse_tokens(s, pos, counts) == parse_tokens(
            s,
            pos + repeated_token(role, n).len(),
            counts.with_count(role, (counts.of(role) + n) as u8),
        ),
    decreases n,
{
    if n == 0 {
        assert(counts.with_count(role, counts.of(role) as u8) == counts);
    } else {
        lemma_repeated_front(role, n);
        let token = role_token(role);
        let rest = repeated_token(role, (n - 1) as nat);
        lemma_starts_at_parts(s, pos, token, rest);
        assert(s[pos] == token[0]);
        if token.len() == 2 {
            assert(s[pos + 1] == token[1]);
        }
        assert(token_at(s, pos) == Some((role, token.len() as int)));
        let more = counts.with_count(role, (counts.of(role) + 1) as u8);
        lemma_parse_repeated(s, pos + token.len(), role, (n - 1) as nat, more);
        assert(more.with_count(role, (more.of(role) + (n - 1)) as u8) == counts.with_count(
            role,
            (counts.of(role) + n) as u8,
        ));
    }
}

proof fn lemma_squares_front(squares: Seq<u8>)
    requires
        squares.len() >= 1,
    ensures
        squares_text(squares) == square_text(squares[0] as int) + squares_text(squares.skip(1)),
    decreases squares.len(),
{
    if squares.len() == 1 {
        reveal_with_fuel(squares_text, 2);
        assert(squares.drop_last() =~= Seq::<u8>::empty());
        assert(squares.skip(1) =~= Seq::<u8>::empty());
        assert(squares_text(squares) =~= square_text(squares[0] as int) + squares_text(
            squares.skip(1),
        ));
    } else {
        lemma_squares_front(squares.drop_last());
        assert(squares.drop_last().skip(1) =~= squares.skip(1).drop_last());
        assert(squares.skip(1).last() == squares.last());
        assert(squares.drop_last()[0] == squares[0]);
        assert(squares_text(squares) =~= square_text(squares[0] as int) + squares_text(
            squares.skip(1),
        ));
    }
}

/// Reading the text of squares adds the squares to the set.
proof fn lemma_parse_squares(s: Seq<char>, pos: int, squares: Seq<u8>, acc: u64)
    requires
        starts_at(s, pos, squares_text(squares)),
        forall|i: int| 0 <= i < squares.len() ==> (#[trigger] squares[i]) < 64,
        square_at(s, pos + squares_text(squares).len()).is_none(),
    ensures
        parse_squares(s, pos, acc) == (
            with_squares(acc, squares),
            pos + squares_text(squares).len(),
        ),
    decreases squares.len(),
{
    if squares.len() == 0 {
    } else {
        lemma_squares_front(squares);
        let sq = squares[0] as int;
        let first = square_text(sq);
        let rest = squares.skip(1);
        lemma_starts_at_parts(s, pos, first, squares_text(rest));
        assert(s[pos] == first[0]);
        assert(s[pos + 1] == first[1]);
        assert(first[0] == file_char(sq % 8));
        assert(first[1] == rank_char(sq / 8));
        assert(square_at(s, pos) == Some(sq));
        assert forall|i: int| 0 <= i < rest.len() implies (#[trigger] rest[i]) < 64 by {
            assert(rest[i] == squares[i + 1]);
        }
        lemma_parse_squares(s, pos + 2, rest, with_square(acc, sq));
    }
}

/// The members of a set built from a sequence of squares.
proof fn lemma_with_squares(acc: u64, squares: Seq<u8>, t: int)
    requires
        forall|i: int| 0 <= i < squares.len() ==> (#[trigger] squares[i]) < 64,
    ensures
        has_square(with_squares(acc, squares), t) == (has_square(acc, t) || (0 <= t < 64
            && squares.contains(t as u8))),
    decreases squares.len(),
{
    if squares.len() > 0 {
        let rest = squares.skip(1);
        assert forall|i: int| 0 <= i < rest.len() implies (#[trigger] rest[i]) < 64 by {
            assert(rest[i] == squares[i + 1]);
        }
        lemma_with_squares(with_square(acc, squares[0] as int), rest, t);
        lemma_with_square(acc, squares[0] as int, t);
        if 0 <= t < 64 {
            if squares.contains(t as u8) {
                let i = choose|i: int| 0 <= i < squares.len() && squares[i] == t as u8;
                if i > 0 {
                    assert(rest[i - 1] == t as u8);
                }
            }
            if rest.contains(t as u8) {
                let i = choose|i: int| 0 <= i < rest.len() && rest[i] == t as u8;
                assert(squares[i + 1] == t as u8);
            }
        }
    }
}

/// The squares of a set, added up again, are the set.
proof fn lemma_squares_make_the_set(bb: u64)
    ensures
        with_squares(0, squares_of(bb)) == bb,
        forall|i: int| 0 <= i < squares_of(bb).len() ==> (#[trigger] squares_of(bb)[i]) < 64,
{
    lemma_squares_below(bb, 64);
    let squares = squares_of(bb);
    assert forall|t: int| 0 <= t < 64 implies has_square(with_squares(0, squares), t)
        == has_square(bb, t) by {
        lemma_with_squares(0, squares, t);
        lemma_empty(t);
        if squares.contains(t as u8) {
            let i = choose|i: int| 0 <= i < squares.len() && squares[i] == t as u8;
            assert(has_square(bb, squares[i] as int));
        }
    }
    lemma_extensional(with_squares(0, squares), bb);
}

/// The pieces of a side with one king: `K`, then the queens, the rooks,
/// the knights, the dark and the light bishops.
proof fn lemma_pieces_text(counts: PieceCounts)
    requires
        counts.king == 1,
    ensures
        pieces_text(counts, 6) == seq!['K'] + repeated_token(
            HbPieceRole::Queen,
            counts.queen as nat,
        ) + repeated_token(HbPieceRole::Rook, counts.rook as nat) + repeated_token(
            HbPieceRole::Knight,
            counts.knight as nat,
        ) + repeated_token(HbPieceRole::DarkBishop, counts.dark_bishop as nat) + repeated_token(
            HbPieceRole::LightBishop,
            counts.light_bishop as nat,
        ),
{
    reveal_with_fuel(pieces_text, 7);
    reveal_with_fuel(repeated_token, 2);
    assert(repeated_token(HbPieceRole::King, 1) =~= seq!['K']);
    assert(pieces_text(counts, 1) =~= seq!['K']);
}

/// Every character of repeated tokens is a letter of a token.
proof fn lemma_repeated_chars(role: HbPieceRole, n: nat, i: int)
    requires
        0 <= i < repeated_token(role, n).len(),
    ensures
        is_token_letter(repeated_token(role, n)[i]),
    decreases n,
{
    if n > 0 {
        let before = repeated_token(role, (n - 1) as nat);
        if i < before.len() {
            lemma_repeated_chars(role, (n - 1) as nat, i);
        }
    }
}

/// The letters of the tokens.
pub open spec fn is_token_letter(c: char) -> bool {
    c == 'K' || c == 'Q' || c == 'R' || c == 'N' || c == 'B' || c == 'd' || c == 'l'
}

/// The letters and digits of the squares.
pub open spec fn is_square_char(c: char) -> bool {
    ('a' <= c <= 'h') || ('1' <= c <= '8')
}

/// Every character of the text of squares is a letter or a digit of a square.
proof fn lemma_squares_chars(squares: Seq<u8>, i: int)
    requires
        forall|k: int| 0 <= k < squares.len() ==> (#[trigger] squares[k]) < 64,
        0 <= i < squares_text(squares).len(),
    ensures
        is_square_char(squares_text(squares)[i]),
        squares_text(squares).len() == 2 * squares.len(),
    decreases squares.len(),
{
    if squares.len() > 0 {
        let before = squares.drop_last();
        assert forall|k: int| 0 <= k < before.len() implies (#[trigger] before[k]) < 64 by {
            assert(before[k] == squares[k]);
        }
        lemma_squares_len(before);
        if i < squares_text(before).len() {
            lemma_squares_chars(before, i);
        } else {
            let sq = squares.last() as int;
            assert(0 <= sq < 64);
        }
    }
}

proof fn lemma_squares_len(squares: Seq<u8>)
    ensures
        squares_text(squares).len() == 2 * squares.len(),
    decreases squares.len(),
{
    if squares.len() > 0 {
        lemma_squares_len(squares.drop_last());
    }
}

/// Reading the text of a side gives its counts and its pawns.
proof fn lemma_parse_side(s: Seq<char>, pos: int, counts: PieceCounts, pawns: u64)
    requires
        counts.king == 1,
        starts_at(s, pos, side_text(counts, pawns)),
        pos + side_text(counts, pawns).len() == s.len() || s[pos + side_text(counts, pawns).len()]
            == 'v',
    ensures
        parse_side(s, pos) == Some((counts, pawns, pos + side_text(counts, pawns).len())),
{
    lemma_pieces_text(counts);
    lemma_squares_make_the_set(pawns);
    let squares = squares_of(pawns);
    let qs = repeated_token(HbPieceRole::Queen, counts.queen as nat);
    let rs = repeated_token(HbPieceRole::Rook, counts.rook as nat);
    let ns = repeated_token(HbPieceRole::Knight, counts.knight as nat);
    let ds = repeated_token(HbPieceRole::DarkBishop, counts.dark_bishop as nat);
    let ls = repeated_token(HbPieceRole::LightBishop, counts.light_bishop as nat);
    let st = squares_text(squares);
    let side = side_text(counts, pawns);
    assert(side =~= seq!['K'] + (qs + (rs + (ns + (ds + (ls + st))))));
    lemma_starts_at_parts(s, pos, seq!['K'], qs + (rs + (ns + (ds + (ls + st)))));
    lemma_starts_at_parts(s, pos + 1, qs, rs + (ns + (ds + (ls + st))));
    let at_rooks = pos + 1 + qs.len();
    lemma_starts_at_parts(s, at_rooks, rs, ns + (ds + (ls + st)));
    let at_knights = at_rooks + rs.len();
    lemma_starts_at_parts(s, at_knights, ns, ds + (ls + st));
    let at_dark = at_knights + ns.len();
    lemma_starts_at_parts(s, at_dark, ds, ls + st);
    let at_light = at_dark + ds.len();
    lemma_starts_at_parts(s, at_light, ls, st);
    let at_squares = at_light + ls.len();
    assert(s[pos] == seq!['K'][0]);
    let c0 = only_king();
    lemma_parse_repeated(s, pos + 1, HbPieceRole::Queen, counts.queen as nat, c0);
    let c1 = c0.with_count(HbPieceRole::Queen, counts.queen);
    lemma_parse_repeated(s, at_rooks, HbPieceRole::Rook, counts.rook as nat, c1);
    let c2 = c1.with_count(HbPieceRole::Rook, counts.rook);
    lemma_parse_repeated(s, at_knights, HbPieceRole::Knight, counts.knight as nat, c2);
    let c3 = c2.with_count(HbPieceRole::Knight, counts.knight);
    lemma_parse_repeated(s, at_dark, HbPieceRole::DarkBishop, counts.dark_bishop as nat, c3);
    let c4 = c3.with_count(HbPieceRole::DarkBishop, counts.dark_bishop);
    lemma_parse_repeated(s, at_light, HbPieceRole::LightBishop, counts.light_bishop as nat, c4);
    let c5 = c4.with_count(HbPieceRole::LightBishop, counts.light_bishop);
    assert(c5 == counts);
    // after the pieces comes a square, the separator or the end: no token
    lemma_squares_len(squares);
    if st.len() > 0 {
        lemma_squares_chars(squares, 0);
        assert(s[at_squares] == st[0]);
    }
    assert(token_at(s, at_squares).is_none());
    assert(parse_tokens(s, at_squares, counts) == Some((counts, at_squares)));
    // after the squares comes the separator or the end: no square
    assert(square_at(s, at_squares + st.len()).is_none());
    lemma_parse_squares(s, at_squares, squares, 0);
}

impl MaterialKey {
    /// The text of a key is ASCII.
    pub proof fn lemma_key_text_is_ascii(self)
        ensures
            is_ascii_chars(key_text(self)),
    {
        let text = key_text(self);
        assert forall|i: int| 0 <= i < text.len() implies '\0' <= #[trigger] text[i]
            <= '\u{7f}' by {
            lemma_key_text_chars(self, i);
        }
    }

    /// Reading the text of a valid key gives the canonical key of its
    /// material.
    pub proof fn lemma_text_names_the_material(self)
        requires
            self.wf(),
        ensures
            parse_raw_key(key_text(self)) == Some(self),
            parse_key(key_text(self)) == Some(self.normalized()),
    {
        let text = key_text(self);
        let white = side_text(self.counts.white, self.pawns.white);
        let black = side_text(self.counts.black, self.pawns.black);
        assert(text =~= white + (seq!['v'] + black));
        assert(starts_at(text, 0, white + (seq!['v'] + black)));
        lemma_starts_at_parts(text, 0, white, seq!['v'] + black);
        lemma_starts_at_parts(text, white.len() as int, seq!['v'], black);
        assert(text[white.len() as int] == seq!['v'][0]);
        lemma_parse_side(text, 0, self.counts.white, self.pawns.white);
        lemma_parse_side(text, (white.len() + 1) as int, self.counts.black, self.pawns.black);
        self.lemma_key_text_is_ascii();
        let key = MaterialKey {
            pawns: PawnStructure { white: self.pawns.white, black: self.pawns.black },
            counts: CountsByColor { white: self.counts.white, black: self.counts.black },
        };
        assert(key == self);
    }

    /// Reading the text of a canonical key gives the key back.
    pub proof fn lemma_text_round_trip(self)
        requires
            self.wf(),
            self.is_canonical(),
        ensures
            parse_key(key_text(self)) == Some(self),
    {
        self.lemma_text_names_the_material();
    }
}

/// Every character of the pieces of a side is a letter of a token.
proof fn lemma_pieces_chars(counts: PieceCounts, n: nat, i: int)
    requires
        0 <= i < pieces_text(counts, n).len(),
    ensures
        is_token_letter(pieces_text(counts, n)[i]),
    decreases n,
{
    if n == 0 || n > 6 {
    } else {
        let before = pieces_text(counts, (n - 1) as nat);
        if i < before.len() {
            lemma_pieces_chars(counts, (n - 1) as nat, i);
        } else {
            lemma_repeated_chars(
                text_roles()[n - 1],
                counts.of(text_roles()[n - 1]) as nat,
                i - before.len(),
            );
        }
    }
}

/// Every character of a key's text is a letter of a token, a letter or a
/// digit of a square, or the separator.
proof fn lemma_key_text_chars(key: MaterialKey, i: int)
    requires
        0 <= i < key_text(key).len(),
    ensures
        is_token_letter(key_text(key)[i]) || is_square_char(key_text(key)[i]) || key_text(key)[i]
            == 'v',
{
    let wp = pieces_text(key.counts.white, 6);
    let ws = squares_text(squares_of(key.pawns.white));
    let bp = pieces_text(key.counts.black, 6);
    let bs = squares_text(squares_of(key.pawns.black));
    lemma_squares_below(key.pawns.white, 64);
    lemma_squares_below(key.pawns.black, 64);
    let text = key_text(key);
    assert(text =~= wp + ws + seq!['v'] + bp + bs);
    if i < wp.len() {
        lemma_pieces_chars(key.counts.white, 6, i);
    } else if i < wp.len() + ws.len() {
        lemma_squares_chars(squares_of(key.pawns.white), i - wp.len());
    } else if i == wp.len() + ws.len() {
    } else if i < wp.len() + ws.len() + 1 + bp.len() {
        lemma_pieces_chars(key.counts.black, 6, i - wp.len() - ws.len() - 1);
    } else {
        lemma_squares_chars(squares_of(key.pawns.black), i - wp.len() - ws.len() - 1 - bp.len());
    }
}

} // verus!
