//! Sets of squares as 64-bit words.
//!
//! Squares are numbered `0..64`, file-major: square `s` lies on file `s % 8`
//! and rank `s / 8`. Bit `s` of a word says whether square `s` is in the set.

use vstd::prelude::*;

verus! {

/// Whether square `sq` is in the set `bb`.
pub open spec fn has_square(bb: u64, sq: int) -> bool {
    0 <= sq < 64 && (bb >> (sq as u64)) & 1 == 1
}

/// The set `bb` with square `sq` added.
pub open spec fn with_square(bb: u64, sq: int) -> u64 {
    bb | (1u64 << (sq as u64))
}

/// The set `bb` with square `sq` removed.
pub open spec fn without_square(bb: u64, sq: int) -> u64 {
    bb & !(1u64 << (sq as u64))
}

/// The square on the same file, with the ranks counted from the other side.
pub open spec fn mirror_rank(sq: int) -> int {
    sq + 56 - 16 * (sq / 8)
}

/// The square on the same rank, with the files counted from the other side.
pub open spec fn mirror_file(sq: int) -> int {
    sq + 7 - 2 * (sq % 8)
}

/// The set mirrored top to bottom: rank 1 becomes rank 8.
pub open spec fn flip_vertical_of(bb: u64) -> u64 {
    let a = ((bb >> 8) & 0x00FF_00FF_00FF_00FFu64) | ((bb & 0x00FF_00FF_00FF_00FFu64) << 8);
    let b = ((a >> 16) & 0x0000_FFFF_0000_FFFFu64) | ((a & 0x0000_FFFF_0000_FFFFu64) << 16);
    (b >> 32) | (b << 32)
}

/// The set mirrored left to right: file a becomes file h.
pub open spec fn flip_horizontal_of(bb: u64) -> u64 {
    let a = ((bb >> 1) & 0x5555_5555_5555_5555u64) | ((bb & 0x5555_5555_5555_5555u64) << 1);
    let b = ((a >> 2) & 0x3333_3333_3333_3333u64) | ((a & 0x3333_3333_3333_3333u64) << 2);
    ((b >> 4) & 0x0F0F_0F0F_0F0F_0F0Fu64) | ((b & 0x0F0F_0F0F_0F0F_0F0Fu64) << 4)
}

/// Number of members of `bb` among the squares below `n`.
pub open spec fn count_below(bb: u64, n: nat) -> nat
    decreases n,
{
    if n == 0 {
        0
    } else {
        count_below(bb, (n - 1) as nat) + if has_square(bb, n - 1) {
            1nat
        } else {
            0nat
        }
    }
}

/// Number of squares in the set.
pub open spec fn square_count(bb: u64) -> nat {
    count_below(bb, 64)
}

/// The members of `bb` below `n`, in ascending order.
pub open spec fn squares_below(bb: u64, n: nat) -> Seq<u8>
    decreases n,
{
    if n == 0 {
        Seq::empty()
    } else if has_square(bb, n - 1) {
        squares_below(bb, (n - 1) as nat).push((n - 1) as u8)
    } else {
        squares_below(bb, (n - 1) as nat)
    }
}

/// The members of the set in ascending order.
pub open spec fn squares_of(bb: u64) -> Seq<u8> {
    squares_below(bb, 64)
}

/// The light squares: those whose file and rank differ in parity.
pub const LIGHT_SQUARES: u64 = 0x55AA_55AA_55AA_55AA;

/// The dark squares: those whose file and rank agree in parity.
pub const DARK_SQUARES: u64 = 0xAA55_AA55_AA55_AA55;

/// The first and the eighth rank.
pub const BACKRANKS: u64 = 0xFF00_0000_0000_00FF;

/// Membership after a square was added.
pub proof fn lemma_with_square(bb: u64, sq: int, t: int)
    requires
        0 <= sq < 64,
    ensures
        has_square(with_square(bb, sq), t) == (has_square(bb, t) || t == sq),
{
    if 0 <= t < 64 {
        let s = sq as u64;
        let u = t as u64;
        assert((((bb | (1u64 << s)) >> u) & 1 == 1) == (((bb >> u) & 1 == 1) || u == s))
            by (bit_vector)
            requires
                s < 64,
                u < 64,
        ;
    }
}

/// Membership after a square was removed.
pub proof fn lemma_without_square(bb: u64, sq: int, t: int)
    requires
        0 <= sq < 64,
    ensures
        has_square(without_square(bb, sq), t) == (has_square(bb, t) && t != sq),
{
    if 0 <= t < 64 {
        let s = sq as u64;
        let u = t as u64;
        assert((((bb & !(1u64 << s)) >> u) & 1 == 1) == (((bb >> u) & 1 == 1) && u != s))
            by (bit_vector)
            requires
                s < 64,
                u < 64,
        ;
    }
}

/// The empty set has no member.
pub proof fn lemma_empty(t: int)
    ensures
        !has_square(0, t),
{
    if 0 <= t < 64 {
        let u = t as u64;
        assert((0u64 >> u) & 1 == 0) by (bit_vector);
    }
}

/// Membership in a union and in an intersection.
pub proof fn lemma_union_intersection(a: u64, b: u64, t: int)
    ensures
        has_square(a | b, t) == (has_square(a, t) || has_square(b, t)),
        has_square(a & b, t) == (has_square(a, t) && has_square(b, t)),
{
    if 0 <= t < 64 {
        let u = t as u64;
        assert((((a | b) >> u) & 1 == 1) == (((a >> u) & 1 == 1) || ((b >> u) & 1 == 1)))
            by (bit_vector);
        assert((((a & b) >> u) & 1 == 1) == (((a >> u) & 1 == 1) && ((b >> u) & 1 == 1)))
            by (bit_vector);
    }
}

/// Two sets with the same members are the same word.
pub proof fn lemma_extensional(a: u64, b: u64)
    requires
        forall|t: int| 0 <= t < 64 ==> has_square(a, t) == has_square(b, t),
    ensures
        a == b,
{
    lemma_agree_below(a, b, 64);
    assert(a & 0xFFFF_FFFF_FFFF_FFFFu64 == a) by (bit_vector);
    assert(b & 0xFFFF_FFFF_FFFF_FFFFu64 == b) by (bit_vector);
}

/// The mask of the squares below `n`.
pub open spec fn low_mask(n: nat) -> u64
    decreases n,
{
    if n == 0 {
        0
    } else {
        low_mask((n - 1) as nat) | (1u64 << ((n - 1) as u64))
    }
}

proof fn lemma_agree_below(a: u64, b: u64, n: nat)
    requires
        n <= 64,
        forall|t: int| 0 <= t < n ==> has_square(a, t) == has_square(b, t),
    ensures
        a & low_mask(n) == b & low_mask(n),
        n == 64 ==> low_mask(n) == 0xFFFF_FFFF_FFFF_FFFFu64,
    decreases n,
{
    if n == 0 {
        assert(a & 0 == b & 0) by (bit_vector);
    } else {
        lemma_agree_below(a, b, (n - 1) as nat);
        let m = low_mask((n - 1) as nat);
        let u = (n - 1) as u64;
        assert(has_square(a, n - 1) == has_square(b, n - 1));
        assert(a & (m | (1u64 << u)) == b & (m | (1u64 << u))) by (bit_vector)
            requires
                a & m == b & m,
                ((a >> u) & 1 == 1) == ((b >> u) & 1 == 1),
                u < 64,
        ;
    }
    if n == 64 {
        lemma_low_mask_value(64);
    }
}

proof fn lemma_low_mask_value(n: nat)
    requires
        n <= 64,
    ensures
        n < 64 ==> low_mask(n) == ((1u64 << (n as u64)) - 1) as u64,
        n == 64 ==> low_mask(n) == 0xFFFF_FFFF_FFFF_FFFFu64,
    decreases n,
{
    if n == 0 {
        assert(((1u64 << 0u64) - 1) as u64 == 0) by (bit_vector);
    } else {
        lemma_low_mask_value((n - 1) as nat);
        let u = (n - 1) as u64;
        let m = low_mask((n - 1) as nat);
        if n < 64 {
            assert(m | (1u64 << u) == ((1u64 << ((u + 1) as u64)) - 1) as u64) by (bit_vector)
                requires
                    u < 63,
                    m == ((1u64 << u) - 1) as u64,
            ;
        } else {
            assert(m | (1u64 << u) == 0xFFFF_FFFF_FFFF_FFFFu64) by (bit_vector)
                requires
                    u == 63,
                    m == ((1u64 << u) - 1) as u64,
            ;
        }
    }
}

/// Members of the set mirrored top to bottom.
pub proof fn lemma_flip_vertical(bb: u64, t: int)
    requires
        0 <= t < 64,
    ensures
        0 <= mirror_rank(t) < 64,
        has_square(flip_vertical_of(bb), t) == has_square(bb, mirror_rank(t)),
{
    let u = t as u64;
    assert(((flip_vertical_of(bb) >> u) & 1 == 1) == ((bb >> (u ^ 56)) & 1 == 1)) by (bit_vector)
        requires
            u < 64,
    ;
    assert(u ^ 56 == u + 56 - 16 * (u / 8) && (u ^ 56) < 64) by (bit_vector)
        requires
            u < 64,
    ;
}

/// Members of the set mirrored left to right.
pub proof fn lemma_flip_horizontal(bb: u64, t: int)
    requires
        0 <= t < 64,
    ensures
        0 <= mirror_file(t) < 64,
        has_square(flip_horizontal_of(bb), t) == has_square(bb, mirror_file(t)),
{
    let u = t as u64;
    assert(((flip_horizontal_of(bb) >> u) & 1 == 1) == ((bb >> (u ^ 7)) & 1 == 1)) by (bit_vector)
        requires
            u < 64,
    ;
    assert(u ^ 7 == u + 7 - 2 * (u % 8) && (u ^ 7) < 64) by (bit_vector)
        requires
            u < 64,
    ;
}

/// Mirroring twice gives the set back.
pub proof fn lemma_flips_are_involutions(bb: u64)
    ensures
        flip_vertical_of(flip_vertical_of(bb)) == bb,
        flip_horizontal_of(flip_horizontal_of(bb)) == bb,
        flip_vertical_of(flip_horizontal_of(bb)) == flip_horizontal_of(flip_vertical_of(bb)),
{
    assert(flip_vertical_of(flip_vertical_of(bb)) == bb) by (bit_vector);
    assert(flip_horizontal_of(flip_horizontal_of(bb)) == bb) by (bit_vector);
    assert(flip_vertical_of(flip_horizontal_of(bb)) == flip_horizontal_of(flip_vertical_of(bb)))
        by (bit_vector);
}

/// Whether `sq` is in `bb`.
pub fn contains(bb: u64, sq: u8) -> (r: bool)
    requires
        sq < 64,
    ensures
        r == has_square(bb, sq as int),
{
    (bb >> (sq as u64)) & 1 == 1
}

/// `bb` with `sq` added.
pub fn add_square(bb: u64, sq: u8) -> (r: u64)
    requires
        sq < 64,
    ensures
        r == with_square(bb, sq as int),
        forall|t: int| has_square(r, t) == (has_square(bb, t) || t == sq),
{
    proof {
        assert forall|t: int| has_square(with_square(bb, sq as int), t) == (has_square(bb, t) || t
            == sq) by {
            lemma_with_square(bb, sq as int, t);
        }
    }
    bb | (1u64 << (sq as u64))
}

/// `bb` with `sq` removed.
pub fn remove_square(bb: u64, sq: u8) -> (r: u64)
    requires
        sq < 64,
    ensures
        r == without_square(bb, sq as int),
        forall|t: int| has_square(r, t) == (has_square(bb, t) && t != sq),
{
    proof {
        assert forall|t: int| has_square(without_square(bb, sq as int), t) == (has_square(bb, t)
            && t != sq) by {
            lemma_without_square(bb, sq as int, t);
        }
    }
    bb & !(1u64 << (sq as u64))
}

/// The set mirrored top to bottom.
pub fn flip_vertical(bb: u64) -> (r: u64)
    ensures
        r == flip_vertical_of(bb),
        forall|t: int| 0 <= t < 64 ==> has_square(r, t) == has_square(bb, mirror_rank(t)),
{
    proof {
        assert forall|t: int| 0 <= t < 64 implies has_square(flip_vertical_of(bb), t)
            == has_square(bb, mirror_rank(t)) by {
            lemma_flip_vertical(bb, t);
        }
    }
    let a = ((bb >> 8) & 0x00FF_00FF_00FF_00FFu64) | ((bb & 0x00FF_00FF_00FF_00FFu64) << 8);
    let b = ((a >> 16) & 0x0000_FFFF_0000_FFFFu64) | ((a & 0x0000_FFFF_0000_FFFFu64) << 16);
    (b >> 32) | (b << 32)
}

/// The set mirrored left to right.
pub fn flip_horizontal(bb: u64) -> (r: u64)
    ensures
        r == flip_horizontal_of(bb),
        forall|t: int| 0 <= t < 64 ==> has_square(r, t) == has_square(bb, mirror_file(t)),
{
    proof {
        assert forall|t: int| 0 <= t < 64 implies has_square(flip_horizontal_of(bb), t)
            == has_square(bb, mirror_file(t)) by {
            lemma_flip_horizontal(bb, t);
        }
    }
    let a = ((bb >> 1) & 0x5555_5555_5555_5555u64) | ((bb & 0x5555_5555_5555_5555u64) << 1);
    let b = ((a >> 2) & 0x3333_3333_3333_3333u64) | ((a & 0x3333_3333_3333_3333u64) << 2);
    ((b >> 4) & 0x0F0F_0F0F_0F0F_0F0Fu64) | ((b & 0x0F0F_0F0F_0F0F_0F0Fu64) << 4)
}

/// Number of squares in the set.
pub fn count_squares(bb: u64) -> (r: u32)
    ensures
        r == square_count(bb),
        r <= 64,
{
    let mut n: u32 = 0;
    let mut sq: u8 = 0;
    while sq < 64
        invariant
            sq <= 64,
            n == count_below(bb, sq as nat),
            n <= sq,
        decreases 64 - sq,
    {
        if contains(bb, sq) {
            n += 1;
        }
        sq += 1;
    }
    n
}

/// The members of the set, in ascending order.
pub fn squares(bb: u64) -> (r: Vec<u8>)
    ensures
        r@ == squares_of(bb),
{
    let mut out: Vec<u8> = Vec::new();
    let mut sq: u8 = 0;
    while sq < 64
        invariant
            sq <= 64,
            out@ == squares_below(bb, sq as nat),
        decreases 64 - sq,
    {
        if contains(bb, sq) {
            out.push(sq);
        }
        sq += 1;
    }
    out
}

/// What `squares_below` holds: exactly the members below `n`, ascending.
pub proof fn lemma_squares_below(bb: u64, n: nat)
    requires
        n <= 64,
    ensures
        forall|i: int|
            0 <= i < squares_below(bb, n).len() ==> (#[trigger] squares_below(bb, n)[i]) < n
                && has_square(bb, squares_below(bb, n)[i] as int),
        forall|i: int, j: int|
            0 <= i < j < squares_below(bb, n).len() ==> (#[trigger] squares_below(bb, n)[i]) < (
            #[trigger] squares_below(bb, n)[j]),
        forall|t: int|
            0 <= t < n && has_square(bb, t) ==> squares_below(bb, n).contains(t as u8),
        squares_below(bb, n).len() == count_below(bb, n),
    decreases n,
{
    if n > 0 {
        lemma_squares_below(bb, (n - 1) as nat);
        let prev = squares_below(bb, (n - 1) as nat);
        let cur = squares_below(bb, n);
        if has_square(bb, n - 1) {
            assert(cur == prev.push((n - 1) as u8));
            assert(cur[cur.len() - 1] == (n - 1) as u8);
            assert forall|t: int| 0 <= t < n && has_square(bb, t) implies cur.contains(
                t as u8,
            ) by {
                if t < n - 1 {
                    let i = choose|i: int| 0 <= i < prev.len() && prev[i] == t as u8;
                    assert(cur[i] == t as u8);
                } else {
                    assert(cur[cur.len() - 1] == t as u8);
                }
            }
        }
    }
}

} // verus!
