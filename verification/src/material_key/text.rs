//! The text form of a material key, such as `KQvK` or `KBdNe4vKa7`.
//!
//! A key is written as White's side, the letter `v`, and Black's side. A
//! side is its pieces, as `K`, `Q`, `R`, `N`, `Bd` and `Bl` in that order,
//! followed by the squares of its pawns in ascending order.

use crate::bitboard::{add_square, has_square, squares, squares_of, with_square};
use crate::material_key::hb_piece::{role_token, HbPieceRole};
use crate::material_key::pawn_structure::PawnStructure;
use crate::material_key::piece_counts::PieceCounts;
use crate::material_key::{CountsByColor, MaterialKey};
use vstd::prelude::*;
use vstd::string::*;
use vstd::utf8::is_ascii_chars;

verus! {

/// The letter of a file, `a` to `h`.
pub open spec fn file_char(file: int) -> char {
    (97 + file) as char
}

/// The digit of a rank, `1` to `8`.
pub open spec fn rank_char(rank: int) -> char {
    (49 + rank) as char
}

/// A square in algebraic notation.
pub open spec fn square_text(sq: int) -> Seq<char> {
    seq![file_char(sq % 8), rank_char(sq / 8)]
}

/// The squares of `squares`, written one after the other.
pub open spec fn squares_text(squares: Seq<u8>) -> Seq<char>
    decreases squares.len(),
{
    if squares.len() == 0 {
        Seq::empty()
    } else {
        squares_text(squares.drop_last()) + square_text(squares.last() as int)
    }
}

/// The token of `role`, written `n` times.
pub open spec fn repeated_token(role: HbPieceRole, n: nat) -> Seq<char>
    decreases n,
{
    if n == 0 {
        Seq::empty()
    } else {
        repeated_token(role, (n - 1) as nat) + role_token(role)
    }
}

/// The roles in the order in which a side's pieces are written.
pub open spec fn text_roles() -> Seq<HbPieceRole> {
    seq![
        HbPieceRole::King,
        HbPieceRole::Queen,
        HbPieceRole::Rook,
        HbPieceRole::Knight,
        HbPieceRole::DarkBishop,
        HbPieceRole::LightBishop,
    ]
}

/// The pieces of one side with one of the first `n` roles of `text_roles`.
pub open spec fn pieces_text(counts: PieceCounts, n: nat) -> Seq<char>
    decreases n,
{
    if n == 0 || n > 6 {
        Seq::empty()
    } else {
        pieces_text(counts, (n - 1) as nat) + repeated_token(
            text_roles()[n - 1],
            counts.of(text_roles()[n - 1]) as nat,
        )
    }
}

/// One side of a key: its pieces, then its pawns' squares.
pub open spec fn side_text(counts: PieceCounts, pawns: u64) -> Seq<char> {
    pieces_text(counts, 6) + squares_text(squares_of(pawns))
}

/// The text of a key.
pub open spec fn key_text(key: MaterialKey) -> Seq<char> {
    side_text(key.counts.white, key.pawns.white) + seq!['v'] + side_text(
        key.counts.black,
        key.pawns.black,
    )
}

/// The piece token that starts at `pos`, with its length. The king's
/// letter is no token: it opens a side.
pub open spec fn token_at(text: Seq<char>, pos: int) -> Option<(HbPieceRole, int)> {
    if !(0 <= pos < text.len()) {
        None
    } else if text[pos] == 'Q' {
        Some((HbPieceRole::Queen, 1))
    } else if text[pos] == 'R' {
        Some((HbPieceRole::Rook, 1))
    } else if text[pos] == 'N' {
        Some((HbPieceRole::Knight, 1))
    } else if text[pos] == 'B' && pos + 1 < text.len() && text[pos + 1] == 'l' {
        Some((HbPieceRole::LightBishop, 2))
    } else if text[pos] == 'B' && pos + 1 < text.len() && text[pos + 1] == 'd' {
        Some((HbPieceRole::DarkBishop, 2))
    } else {
        None
    }
}

/// Reads piece tokens from `pos` on for as long as there are any, adding
/// to `counts`. Gives the counts and the place of the first character that
/// starts no token; nothing when a count leaves its type.
pub open spec fn parse_tokens(text: Seq<char>, pos: int, counts: PieceCounts) -> Option<
    (PieceCounts, int),
>
    decreases text.len() - pos,
{
    match token_at(text, pos) {
        Some((role, len)) => {
            if counts.of(role) >= 255 {
                None
            } else {
                parse_tokens(text, pos + len, counts.with_count(role, (counts.of(role) + 1) as u8))
            }
        },
        None => Some((counts, pos)),
    }
}

/// The square that is written at `pos`.
pub open spec fn square_at(text: Seq<char>, pos: int) -> Option<int> {
    if 0 <= pos && pos + 1 < text.len() && 'a' <= text[pos] <= 'h' && '1' <= text[pos + 1]
        <= '8' {
        Some((text[pos + 1] as int - 49) * 8 + (text[pos] as int - 97))
    } else {
        None
    }
}

/// Reads squares from `pos` on for as long as there are any, adding them
/// to `pawns`. Gives the set and the place of the first character that
/// starts no square.
pub open spec fn parse_squares(text: Seq<char>, pos: int, pawns: u64) -> (u64, int)
    decreases text.len() - pos,
{
    match square_at(text, pos) {
        Some(sq) => parse_squares(text, pos + 2, with_square(pawns, sq)),
        None => (pawns, pos),
    }
}

/// The counts of a side that has its king and nothing else.
pub open spec fn only_king() -> PieceCounts {
    PieceCounts { king: 1, queen: 0, rook: 0, light_bishop: 0, dark_bishop: 0, knight: 0 }
}

/// Reads one side from `pos` on: the king's letter, the other pieces, the
/// pawns' squares. Gives the counts, the pawns and the place where the
/// side ends.
pub open spec fn parse_side(text: Seq<char>, pos: int) -> Option<(PieceCounts, u64, int)> {
    if 0 <= pos < text.len() && text[pos] == 'K' {
        match parse_tokens(text, pos + 1, only_king()) {
            Some((counts, after)) => {
                let (pawns, end) = parse_squares(text, after, 0);
                Some((counts, pawns, end))
            },
            None => None,
        }
    } else {
        None
    }
}

/// The material that a text names, as written: White's side, `v`, Black's
/// side and nothing more. Each side has to open with its one king; no pawn
/// may stand on the first or eighth rank, no square may hold a pawn of
/// each side, and there may be at most 255 pieces and pawns in all.
pub open spec fn parse_raw_key(text: Seq<char>) -> Option<MaterialKey> {
    match parse_side(text, 0) {
        Some((white, white_pawns, middle)) => {
            if middle < text.len() && text[middle] == 'v' {
                match parse_side(text, middle + 1) {
                    Some((black, black_pawns, end)) => {
                        let key = MaterialKey {
                            pawns: PawnStructure { white: white_pawns, black: black_pawns },
                            counts: CountsByColor { white, black },
                        };
                        if end == text.len() && key.wf() {
                            Some(key)
                        } else {
                            None
                        }
                    },
                    None => None,
                }
            } else {
                None
            }
        },
        None => None,
    }
}

/// The canonical key of the material that a text names; a text with a
/// character outside ASCII names none.
pub open spec fn parse_key(text: Seq<char>) -> Option<MaterialKey> {
    if is_ascii_chars(text) {
        match parse_raw_key(text) {
            Some(key) => Some(key.normalized()),
            None => None,
        }
    } else {
        None
    }
}

/// The bytes of an ASCII text, character by character.
pub open spec fn bytes_match(bytes: Seq<u8>, text: Seq<char>) -> bool {
    &&& bytes.len() == text.len()
    &&& forall|i: int|
        #![trigger text[i]]
        #![trigger bytes[i]]
        0 <= i < text.len() ==> (text[i] as int) < 128 && bytes[i] as int == text[i] as int
}

proof fn lemma_byte_at(bytes: Seq<u8>, text: Seq<char>, i: int)
    requires
        bytes_match(bytes, text),
        0 <= i < text.len(),
    ensures
        (text[i] as int) < 128,
        bytes[i] as int == text[i] as int,
{
}

fn read_tokens(bytes: &[u8], start: usize, Ghost(text): Ghost<Seq<char>>) -> (r: Option<
    (PieceCounts, usize),
>)
    requires
        bytes_match(bytes@, text),
        start <= bytes@.len(),
    ensures
        match (r, parse_tokens(text, start as int, only_king())) {
            (Some((counts, pos)), Some((c, p))) => counts == c && pos == p && pos <= bytes@.len(),
            (None, None) => true,
            _ => false,
        },
{
    let mut counts = PieceCounts {
        king: 1,
        queen: 0,
        rook: 0,
        light_bishop: 0,
        dark_bishop: 0,
        knight: 0,
    };
    let mut pos: usize = start;
    loop
        invariant
            bytes_match(bytes@, text),
            start <= pos <= bytes@.len(),
            parse_tokens(text, start as int, only_king()) == parse_tokens(
                text,
                pos as int,
                counts,
            ),
        decreases bytes@.len() - pos,
    {
        if pos >= bytes.len() {
            return Some((counts, pos));
        }
        let b = bytes[pos];
        proof {
            lemma_byte_at(bytes@, text, pos as int);
            if pos + 1 < bytes@.len() {
                lemma_byte_at(bytes@, text, pos + 1);
            }
        }
        let (role, len) = if b == 81 {
            (HbPieceRole::Queen, 1usize)
        } else if b == 82 {
            (HbPieceRole::Rook, 1usize)
        } else if b == 78 {
            (HbPieceRole::Knight, 1usize)
        } else if b == 66 && pos + 1 < bytes.len() && bytes[pos + 1] == 108 {
            (HbPieceRole::LightBishop, 2usize)
        } else if b == 66 && pos + 1 < bytes.len() && bytes[pos + 1] == 100 {
            (HbPieceRole::DarkBishop, 2usize)
        } else {
            proof {
                assert(token_at(text, pos as int).is_none());
            }
            return Some((counts, pos));
        };
        proof {
            assert(token_at(text, pos as int) == Some((role, len as int)));
        }
        let had = counts.get(role);
        if had == 255 {
            return None;
        }
        counts.set(role, had + 1);
        pos = pos + len;
    }
}

fn read_squares(bytes: &[u8], start: usize, Ghost(text): Ghost<Seq<char>>) -> (r: (u64, usize))
    requires
        bytes_match(bytes@, text),
        start <= bytes@.len(),
    ensures
        (r.0, r.1 as int) == parse_squares(text, start as int, 0),
        r.1 <= bytes@.len(),
{
    let mut pawns: u64 = 0;
    let mut pos: usize = start;
    loop
        invariant
            bytes_match(bytes@, text),
            start <= pos <= bytes@.len(),
            parse_squares(text, start as int, 0) == parse_squares(text, pos as int, pawns),
        decreases bytes@.len() - pos,
    {
        if bytes.len() - pos < 2 {
            return (pawns, pos);
        }
        let file = bytes[pos];
        let rank = bytes[pos + 1];
        proof {
            lemma_byte_at(bytes@, text, pos as int);
            lemma_byte_at(bytes@, text, pos + 1);
        }
        if 97 <= file && file <= 104 && 49 <= rank && rank <= 56 {
            let sq: u8 = (rank - 49) * 8 + (file - 97);
            proof {
                assert(square_at(text, pos as int) == Some(sq as int));
            }
            pawns = add_square(pawns, sq);
            pos = pos + 2;
        } else {
            proof {
                assert(square_at(text, pos as int).is_none());
            }
            return (pawns, pos);
        }
    }
}

fn read_side(bytes: &[u8], start: usize, Ghost(text): Ghost<Seq<char>>) -> (r: Option<
    (PieceCounts, u64, usize),
>)
    requires
        bytes_match(bytes@, text),
        start <= bytes@.len(),
    ensures
        match (r, parse_side(text, start as int)) {
            (Some((counts, pawns, pos)), Some((c, p, e))) => counts == c && pawns == p && pos == e
                && pos <= bytes@.len(),
            (None, None) => true,
            _ => false,
        },
{
    if start >= bytes.len() {
        return None;
    }
    proof {
        lemma_byte_at(bytes@, text, start as int);
    }
    if bytes[start] != 75 {
        return None;
    }
    match read_tokens(bytes, start + 1, Ghost(text)) {
        Some((counts, after)) => {
            let (pawns, end) = read_squares(bytes, after, Ghost(text));
            Some((counts, pawns, end))
        },
        None => None,
    }
}

fn file_str(file: u8) -> (r: &'static str)
    requires
        file < 8,
    ensures
        r@ == seq![file_char(file as int)],
{
    proof {
        reveal_strlit("a");
        reveal_strlit("b");
        reveal_strlit("c");
        reveal_strlit("d");
        reveal_strlit("e");
        reveal_strlit("f");
        reveal_strlit("g");
        reveal_strlit("h");
    }
    let r = if file == 0 {
        "a"
    } else if file == 1 {
        "b"
    } else if file == 2 {
        "c"
    } else if file == 3 {
        "d"
    } else if file == 4 {
        "e"
    } else if file == 5 {
        "f"
    } else if file == 6 {
        "g"
    } else {
        "h"
    };
    assert(r@ =~= seq![file_char(file as int)]);
    r
}

fn rank_str(rank: u8) -> (r: &'static str)
    requires
        rank < 8,
    ensures
        r@ == seq![rank_char(rank as int)],
{
    proof {
        reveal_strlit("1");
        reveal_strlit("2");
        reveal_strlit("3");
        reveal_strlit("4");
        reveal_strlit("5");
        reveal_strlit("6");
        reveal_strlit("7");
        reveal_strlit("8");
    }
    let r = if rank == 0 {
        "1"
    } else if rank == 1 {
        "2"
    } else if rank == 2 {
        "3"
    } else if rank == 3 {
        "4"
    } else if rank == 4 {
        "5"
    } else if rank == 5 {
        "6"
    } else if rank == 6 {
        "7"
    } else {
        "8"
    };
    assert(r@ =~= seq![rank_char(rank as int)]);
    r
}

fn write_side(counts: &PieceCounts, pawns: u64, out: &mut String)
    ensures
        final(out)@ == old(out)@ + side_text(*counts, pawns),
{
    let roles = [
        HbPieceRole::King,
        HbPieceRole::Queen,
        HbPieceRole::Rook,
        HbPieceRole::Knight,
        HbPieceRole::DarkBishop,
        HbPieceRole::LightBishop,
    ];
    proof {
        assert(roles@ =~= text_roles());
        assert(old(out)@ + pieces_text(*counts, 0) =~= old(out)@);
    }
    let mut i: usize = 0;
    while i < 6
        invariant
            i <= 6,
            roles@ == text_roles(),
            out@ == old(out)@ + pieces_text(*counts, i as nat),
        decreases 6 - i,
    {
        let role = roles[i];
        let n = counts.get(role);
        let ghost before = out@;
        let mut j: u8 = 0;
        proof {
            assert(before + repeated_token(role, 0) =~= before);
        }
        while j < n
            invariant
                j <= n,
                out@ == before + repeated_token(role, j as nat),
            decreases n - j,
        {
            out.append(role.token());
            proof {
                assert(before + repeated_token(role, j as nat) + role_token(role) =~= before
                    + repeated_token(role, (j + 1) as nat));
            }
            j += 1;
        }
        proof {
            assert(out@ =~= old(out)@ + pieces_text(*counts, (i + 1) as nat));
        }
        i += 1;
    }
    let pawn_squares = squares(pawns);
    let ghost pieces = out@;
    let mut k: usize = 0;
    proof {
        assert(pawn_squares@.take(0) =~= Seq::<u8>::empty());
        assert(pieces + squares_text(pawn_squares@.take(0)) =~= pieces);
        crate::bitboard::lemma_squares_below(pawns, 64);
    }
    while k < pawn_squares.len()
        invariant
            k <= pawn_squares.len(),
            pawn_squares@ == squares_of(pawns),
            forall|i: int| 0 <= i < pawn_squares@.len() ==> (#[trigger] pawn_squares@[i]) < 64,
            out@ == pieces + squares_text(pawn_squares@.take(k as int)),
        decreases pawn_squares.len() - k,
    {
        let sq = pawn_squares[k];
        out.append(file_str(sq % 8));
        out.append(rank_str(sq / 8));
        proof {
            let upto = pawn_squares@.take(k + 1);
            assert(upto.drop_last() =~= pawn_squares@.take(k as int));
            assert(upto.last() == sq);
            assert(seq![file_char(sq as int % 8)] + seq![rank_char(sq as int / 8)] =~= square_text(
                sq as int,
            ));
            assert(out@ =~= pieces + squares_text(upto));
        }
        k += 1;
    }
    proof {
        assert(pawn_squares@.take(pawn_squares@.len() as int) =~= pawn_squares@);
        assert(out@ =~= old(out)@ + side_text(*counts, pawns));
    }
}

impl MaterialKey {
    /// The text of the key: White's pieces and pawn squares, `v`, Black's
    /// pieces and pawn squares.
    pub fn to_string(&self) -> (r: String)
        ensures
            r@ == key_text(*self),
    {
        let mut out = String::new();
        write_side(&self.counts.white, self.pawns.white, &mut out);
        proof {
            reveal_strlit("v");
        }
        out.append("v");
        write_side(&self.counts.black, self.pawns.black, &mut out);
        proof {
            assert("v"@ =~= seq!['v']);
            assert(out@ =~= key_text(*self));
        }
        out
    }

    /// Parse a [`MaterialKey`] from its textual representation.
    ///
    /// # Syntax
    /// The expected form is `<white pieces>v<black pieces>`, where each side
    /// opens with `K` and exactly one `v` separates the two sides.
    ///
    /// # Piece tokens and colors
    /// Supported tokens are `K`, `Q`, `R`, `Bl`, `Bd` and `N` for king,
    /// queen, rook, light-squared bishop, dark-squared bishop and knight.
    /// Pieces before the separator are white, those after it black.
    ///
    /// # Pawn tokens
    /// After the pieces of a side come the squares of its pawns, as
    /// lowercase file/rank pairs on the ranks 2 to 7.
    ///
    /// # Errors
    /// Returns `None` if the string is malformed, contains unsupported
    /// tokens, has a missing or extra separator, misses a king, puts a pawn
    /// on the first or eighth rank or two pawns of different sides on one
    /// square, or names more than 255 pieces and pawns.
    pub fn from_string(s: &str) -> (r: Option<Self>)
        ensures
            r == parse_key(s@),
            r.is_some() ==> r.unwrap().wf() && r.unwrap().is_canonical(),
    {
        if !s.is_ascii() {
            return None;
        }
        let bytes = s.as_bytes();
        let ghost text = s@;
        proof {
            is_ascii_spec_bytes(s);
            vstd::utf8::is_ascii_chars_nat_bound(text);
            assert(bytes_match(bytes@, text));
        }
        parse_bytes(bytes, Ghost(text))
    }

    /// Parse a [`MaterialKey`] from the bytes of its textual representation.
    pub fn from_ascii(bytes: &[u8]) -> (r: Option<Self>)
        ensures
            r == match ascii_text(bytes@) {
                Some(text) => parse_key(text),
                None => None,
            },
            r.is_some() ==> r.unwrap().wf() && r.unwrap().is_canonical(),
    {
        let mut i: usize = 0;
        while i < bytes.len()
            invariant
                i <= bytes@.len(),
                forall|k: int| 0 <= k < i ==> (#[trigger] bytes@[k]) < 128,
            decreases bytes@.len() - i,
        {
            if bytes[i] >= 128 {
                return None;
            }
            i += 1;
        }
        let ghost text = ascii_text(bytes@).unwrap();
        proof {
            assert(bytes_match(bytes@, text));
            assert(is_ascii_chars(text)) by {
                assert forall|k: int| 0 <= k < text.len() implies (text[k] as nat) < 128 by {
                    assert(text[k] as int == bytes@[k] as int);
                }
                vstd::utf8::is_ascii_chars_nat_bound(text);
            }
        }
        parse_bytes(bytes, Ghost(text))
    }
}

/// The text of bytes that are all ASCII.
pub open spec fn ascii_text(bytes: Seq<u8>) -> Option<Seq<char>> {
    if forall|i: int| 0 <= i < bytes.len() ==> (#[trigger] bytes[i]) < 128 {
        Some(Seq::new(bytes.len(), |i: int| bytes[i] as char))
    } else {
        None
    }
}

fn parse_bytes(bytes: &[u8], Ghost(text): Ghost<Seq<char>>) -> (r: Option<MaterialKey>)
    requires
        bytes_match(bytes@, text),
        is_ascii_chars(text),
    ensures
        r == parse_key(text),
        r.is_some() ==> r.unwrap().wf() && r.unwrap().is_canonical(),
{
    let (white, white_pawns, middle) = match read_side(bytes, 0, Ghost(text)) {
        Some(side) => side,
        None => {
            return None;
        },
    };
    proof {
        if middle < bytes@.len() {
            lemma_byte_at(bytes@, text, middle as int);
        }
    }
    if middle >= bytes.len() || bytes[middle] != 118 {
        return None;
    }
    let (black, black_pawns, end) = match read_side(bytes, middle + 1, Ghost(text)) {
        Some(side) => side,
        None => {
            return None;
        },
    };
    if end != bytes.len() {
        return None;
    }
    let pawns = match PawnStructure::checked(white_pawns, black_pawns) {
        Some(pawns) => pawns,
        None => {
            return None;
        },
    };
    let key = MaterialKey { pawns, counts: CountsByColor { white, black } };
    if key.total_piece_count() > 255 {
        return None;
    }
    if white.king != 1 || black.king != 1 {
        return None;
    }
    proof {
        key.lemma_normalized_wf();
        key.lemma_normalized_canonical();
    }
    Some(key.into_normalized())
}

} // verus!
