//! Codes as sequences of bits: how a sequence of symbols is written, and
//! why no code of a canonical code is the beginning of another.

use crate::compression::huffman::{
    canonical_codes, code_of, lemma_longer_code_above, lemma_same_length_codes_differ,
    lemma_two_pow, lemma_two_pow_adds, lengths_valid, two_pow,
};
use vstd::prelude::*;

verus! {

/// The `i`-th bit, counted from the highest, of a code of `len` bits.
pub open spec fn code_bit(code: nat, len: nat, i: int) -> bool {
    (code / two_pow((len - 1 - i) as nat)) % 2 == 1
}

/// The bits of a code of `len` bits, the highest first.
pub open spec fn code_bits(code: nat, len: nat) -> Seq<bool> {
    Seq::new(len, |i: int| code_bit(code, len, i))
}

/// The bits of the code of a symbol.
pub open spec fn symbol_bits(codes: Seq<(u32, u8)>, sym: int) -> Seq<bool> {
    code_bits(codes[sym].0 as nat, codes[sym].1 as nat)
}

/// The bits of a sequence of symbols: the codes one after the other.
pub open spec fn encoded(seq: Seq<u16>, codes: Seq<(u32, u8)>) -> Seq<bool>
    decreases seq.len(),
{
    if seq.len() == 0 {
        Seq::empty()
    } else {
        encoded(seq.drop_last(), codes) + symbol_bits(codes, seq.last() as int)
    }
}

/// Whether `p` is the beginning of `q`.
pub open spec fn is_prefix(p: Seq<bool>, q: Seq<bool>) -> bool {
    p.len() <= q.len() && q.take(p.len() as int) == p
}

/// Every symbol of `seq` has a code.
pub open spec fn all_coded(seq: Seq<u16>, codes: Seq<(u32, u8)>) -> bool {
    forall|i: int| 0 <= i < seq.len() ==> (#[trigger] seq[i]) < codes.len() && codes[seq[i] as int].1 > 0
}

/// The bit of a byte that holds the `k`-th bit of a stream, counted within
/// the byte: the highest bit comes first.
pub open spec fn bit_weight(k: int) -> nat {
    two_pow((7 - k) as nat)
}

/// The `i`-th bit of a stream of bytes.
pub open spec fn stream_bit(bytes: Seq<u8>, i: int) -> bool {
    (bytes[i / 8] as nat / bit_weight(i % 8)) % 2 == 1
}

/// The first `n` bits of a stream of bytes.
pub open spec fn stream_bits(bytes: Seq<u8>, n: nat) -> Seq<bool> {
    Seq::new(n, |i: int| stream_bit(bytes, i))
}

/// The first `k` bits of the `j`-th byte of the stream that holds `bits`;
/// beyond the end of `bits` the byte is filled with zeros.
pub open spec fn partial_byte(bits: Seq<bool>, j: int, k: nat) -> nat
    decreases k,
{
    if k == 0 {
        0
    } else {
        partial_byte(bits, j, (k - 1) as nat) + if 8 * j + k - 1 < bits.len() && bits[8 * j + k
            - 1] {
            two_pow((8 - k) as nat)
        } else {
            0nat
        }
    }
}

/// The stream of bytes that holds `bits`, the first bit in the highest bit
/// of the first byte.
pub open spec fn packed(bits: Seq<bool>) -> Seq<u8> {
    Seq::new(((bits.len() + 7) / 8) as nat, |j: int| partial_byte(bits, j, 8) as u8)
}

/// The binary digits of a number below `256`.
proof fn lemma_digits(
    x0: int,
    x1: int,
    x2: int,
    x3: int,
    x4: int,
    x5: int,
    x6: int,
    x7: int,
)
    requires
        0 <= x0 <= 1,
        0 <= x1 <= 1,
        0 <= x2 <= 1,
        0 <= x3 <= 1,
        0 <= x4 <= 1,
        0 <= x5 <= 1,
        0 <= x6 <= 1,
        0 <= x7 <= 1,
    ensures
        ({
            let p = 128 * x0 + 64 * x1 + 32 * x2 + 16 * x3 + 8 * x4 + 4 * x5 + 2 * x6 + x7;
            &&& 0 <= p < 256
            &&& (p / 128) % 2 == x0
            &&& (p / 64) % 2 == x1
            &&& (p / 32) % 2 == x2
            &&& (p / 16) % 2 == x3
            &&& (p / 8) % 2 == x4
            &&& (p / 4) % 2 == x5
            &&& (p / 2) % 2 == x6
            &&& (p / 1) % 2 == x7
        }),
{
    let p = 128 * x0 + 64 * x1 + 32 * x2 + 16 * x3 + 8 * x4 + 4 * x5 + 2 * x6 + x7;
    assert(p / 128 == x0);
    assert(p / 64 == 2 * x0 + x1);
    assert(p / 32 == 4 * x0 + 2 * x1 + x2);
    assert(p / 16 == 8 * x0 + 4 * x1 + 2 * x2 + x3);
    assert(p / 8 == 16 * x0 + 8 * x1 + 4 * x2 + 2 * x3 + x4);
    assert(p / 4 == 32 * x0 + 16 * x1 + 8 * x2 + 4 * x3 + 2 * x4 + x5);
    assert(p / 2 == 64 * x0 + 32 * x1 + 16 * x2 + 8 * x3 + 4 * x4 + 2 * x5 + x6);
}

/// Whether the `k`-th bit of the `j`-th byte of the stream that holds
/// `bits` is set, as a number.
pub open spec fn stream_digit(bits: Seq<bool>, j: int, k: int) -> int {
    if 8 * j + k < bits.len() && bits[8 * j + k] {
        1
    } else {
        0
    }
}

proof fn lemma_partial_byte_sum(bits: Seq<bool>, j: int)
    ensures
        partial_byte(bits, j, 8) == 128 * stream_digit(bits, j, 0) + 64 * stream_digit(bits, j, 1)
            + 32 * stream_digit(bits, j, 2) + 16 * stream_digit(bits, j, 3) + 8 * stream_digit(
            bits,
            j,
            4,
        ) + 4 * stream_digit(bits, j, 5) + 2 * stream_digit(bits, j, 6) + stream_digit(bits, j, 7),
{
    reveal_with_fuel(partial_byte, 9);
    reveal_with_fuel(two_pow, 9);
}

/// A byte of the stream is below `256`, and holds its bits.
pub proof fn lemma_partial_byte(bits: Seq<bool>, j: int, k: int)
    requires
        0 <= j,
        0 <= k < 8,
    ensures
        partial_byte(bits, j, 8) < 256,
        ((partial_byte(bits, j, 8) / bit_weight(k)) % 2 == 1) == (8 * j + k < bits.len()
            && bits[8 * j + k]),
{
    lemma_partial_byte_sum(bits, j);
    lemma_digits(
        stream_digit(bits, j, 0),
        stream_digit(bits, j, 1),
        stream_digit(bits, j, 2),
        stream_digit(bits, j, 3),
        stream_digit(bits, j, 4),
        stream_digit(bits, j, 5),
        stream_digit(bits, j, 6),
        stream_digit(bits, j, 7),
    );
    assert(bit_weight(0) == 128 && bit_weight(1) == 64 && bit_weight(2) == 32 && bit_weight(3)
        == 16 && bit_weight(4) == 8 && bit_weight(5) == 4 && bit_weight(6) == 2 && bit_weight(7)
        == 1) by {
        reveal_with_fuel(two_pow, 9);
    }
}

/// Reading the packed stream gives the bits back.
pub proof fn lemma_packed(bits: Seq<bool>)
    ensures
        packed(bits).len() == (bits.len() + 7) / 8,
        stream_bits(packed(bits), bits.len()) == bits,
{
    assert forall|i: int| 0 <= i < bits.len() implies stream_bit(packed(bits), i) == bits[i] by {
        lemma_partial_byte(bits, i / 8, i % 8);
    }
    assert(stream_bits(packed(bits), bits.len()) =~= bits);
}

/// Dividing by two powers of two in turn is dividing by their product.
pub proof fn lemma_div_two_pows(x: nat, a: nat, b: nat)
    ensures
        (x / two_pow(a)) / two_pow(b) == x / two_pow(a + b),
{
    lemma_two_pow_adds(a, b);
    lemma_two_pow_adds(b, a);
    vstd::arithmetic::div_mod::lemma_div_denominator(
        x as int,
        two_pow(a) as int,
        two_pow(b) as int,
    );
}

/// Two numbers of `m` bits with the same bits are the same number.
pub proof fn lemma_bits_determine(a: nat, b: nat, m: nat)
    requires
        a < two_pow(m),
        b < two_pow(m),
        forall|i: int| 0 <= i < m ==> #[trigger] code_bit(a, m, i) == code_bit(b, m, i),
    ensures
        a == b,
    decreases m,
{
    if m > 0 {
        let half_a = a / 2;
        let half_b = b / 2;
        assert(two_pow(1) == 2 && two_pow(0) == 1) by {
            reveal_with_fuel(two_pow, 2);
        }
        let k = (m - 1) as nat;
        assert forall|i: int| 0 <= i < k implies #[trigger] code_bit(half_a, k, i) == code_bit(
            half_b,
            k,
            i,
        ) by {
            let e = (m - 2 - i) as nat;
            lemma_div_two_pows(a, 1, e);
            lemma_div_two_pows(b, 1, e);
            assert(code_bit(a, m, i) == code_bit(b, m, i));
        }
        assert(half_a < two_pow(k) && half_b < two_pow(k));
        lemma_bits_determine(half_a, half_b, k);
        assert(code_bit(a, m, m - 1) == code_bit(b, m, m - 1));
        assert(a / 1 == a && b / 1 == b);
    }
}

/// The first `m` bits of a number of `len` bits are the bits of the number
/// without its last `len - m` bits.
pub proof fn lemma_front_bits(c: nat, len: nat, m: nat)
    requires
        m <= len,
        c < two_pow(len),
    ensures
        c / two_pow((len - m) as nat) < two_pow(m),
        forall|i: int|
            0 <= i < m ==> #[trigger] code_bit(c / two_pow((len - m) as nat), m, i) == code_bit(
                c,
                len,
                i,
            ),
{
    let d = (len - m) as nat;
    lemma_two_pow_adds(d, m);
    let p = two_pow(d);
    let q = two_pow(m);
    assert(c / p < q) by (nonlinear_arith)
        requires
            c < p * q,
            p >= 1,
    ;
    assert forall|i: int| 0 <= i < m implies #[trigger] code_bit(c / p, m, i) == code_bit(
        c,
        len,
        i,
    ) by {
        lemma_div_two_pows(c, d, (m - 1 - i) as nat);
    }
}

/// In a canonical code no code is the beginning of another symbol's code.
pub proof fn lemma_prefix_free(lens: Seq<u8>, s: int, t: int)
    requires
        lengths_valid(lens),
        0 <= s < lens.len(),
        0 <= t < lens.len(),
        s != t,
        lens[s] > 0,
        lens[t] > 0,
    ensures
        !is_prefix(
            symbol_bits(canonical_codes(lens), s),
            symbol_bits(canonical_codes(lens), t),
        ),
{
    let codes = canonical_codes(lens);
    let cs = code_of(lens, s);
    let ct = code_of(lens, t);
    let ls = lens[s] as nat;
    let lt = lens[t] as nat;
    lemma_two_pow(ls);
    lemma_two_pow(lt);
    assert(codes[s] == (cs as u32, lens[s]));
    assert(codes[t] == (ct as u32, lens[t]));
    let ps = symbol_bits(codes, s);
    let pt = symbol_bits(codes, t);
    if is_prefix(ps, pt) {
        assert(ls <= lt);
        assert forall|i: int| 0 <= i < ls implies #[trigger] code_bit(cs, ls, i) == code_bit(
            ct,
            lt,
            i,
        ) by {
            assert(pt.take(ls as int)[i] == ps[i]);
            assert(pt[i] == code_bit(ct, lt, i));
            assert(ps[i] == code_bit(cs, ls, i));
        }
        if ls == lt {
            lemma_bits_determine(cs, ct, ls);
            if s < t {
                lemma_same_length_codes_differ(lens, s, t);
            } else {
                lemma_same_length_codes_differ(lens, t, s);
            }
        } else {
            let d = (lt - ls) as nat;
            lemma_front_bits(ct, lt, ls);
            lemma_bits_determine(cs, ct / two_pow(d), ls);
            lemma_longer_code_above(lens, s, lt, t as nat);
            lemma_two_pow_adds(d, 0);
            let p = two_pow(d);
            assert(ct / p >= cs + 1) by (nonlinear_arith)
                requires
                    ct >= (cs + 1) * p,
                    p >= 1,
            ;
        }
    }
}

/// The bits of a sequence are the bits of its parts, one after the other.
pub proof fn lemma_encoded_concat(x: Seq<u16>, y: Seq<u16>, codes: Seq<(u32, u8)>)
    ensures
        encoded(x + y, codes) == encoded(x, codes) + encoded(y, codes),
    decreases y.len(),
{
    if y.len() == 0 {
        assert(x + y =~= x);
        assert(encoded(x, codes) + Seq::<bool>::empty() =~= encoded(x, codes));
    } else {
        assert((x + y).drop_last() =~= x + y.drop_last());
        assert((x + y).last() == y.last());
        lemma_encoded_concat(x, y.drop_last(), codes);
        assert(encoded(x, codes) + encoded(y.drop_last(), codes) + symbol_bits(
            codes,
            y.last() as int,
        ) =~= encoded(x, codes) + (encoded(y.drop_last(), codes) + symbol_bits(
            codes,
            y.last() as int,
        )));
    }
}

/// The bits of a sequence with one more symbol.
pub proof fn lemma_encoded_push(x: Seq<u16>, sym: u16, codes: Seq<(u32, u8)>)
    ensures
        encoded(x.push(sym), codes) == encoded(x, codes) + symbol_bits(codes, sym as int),
{
    assert(x.push(sym).drop_last() =~= x);
}

/// The weight of the bit of a byte that holds the `k`-th bit of its eight.
pub fn weight_of_bit(k: usize) -> (r: u8)
    requires
        k < 8,
    ensures
        r == bit_weight(k as int),
        r >= 1,
{
    proof {
        reveal_with_fuel(two_pow, 9);
    }
    if k == 0 {
        128
    } else if k == 1 {
        64
    } else if k == 2 {
        32
    } else if k == 3 {
        16
    } else if k == 4 {
        8
    } else if k == 5 {
        4
    } else if k == 6 {
        2
    } else {
        1
    }
}

/// The `i`-th bit of a stream of bytes.
pub fn read_bit(bytes: &Vec<u8>, i: usize) -> (r: bool)
    requires
        i / 8 < bytes@.len(),
    ensures
        r == stream_bit(bytes@, i as int),
{
    let byte = bytes[i / 8];
    (byte / weight_of_bit(i % 8)) % 2 == 1
}

/// Appends the bits of the code `code` of `len` bits, the highest first.
pub fn push_code_bits(code: u32, len: u8, bits: &mut Vec<bool>)
    requires
        len <= 32,
    ensures
        final(bits)@ == old(bits)@ + code_bits(code as nat, len as nat),
{
    if len == 0 {
        proof {
            assert(old(bits)@ + code_bits(code as nat, 0) =~= old(bits)@);
        }
        return ;
    }
    let mut divisor: u64 = 1;
    let mut k: u8 = 1;
    proof {
        reveal_with_fuel(two_pow, 2);
    }
    while k < len
        invariant
            1 <= k <= len <= 32,
            divisor == two_pow((k - 1) as nat),
            divisor <= 0x1_0000_0000,
        decreases len - k,
    {
        proof {
            lemma_two_pow((k - 1) as nat);
            lemma_two_pow(k as nat);
        }
        divisor = divisor * 2;
        k += 1;
    }
    let mut i: u8 = 0;
    proof {
        lemma_two_pow((len - 1) as nat);
        assert(old(bits)@ + code_bits(code as nat, len as nat).take(0) =~= old(bits)@);
    }
    while i < len
        invariant
            i <= len <= 32,
            i < len ==> divisor == two_pow((len - 1 - i) as nat),
            divisor >= 1,
            bits@ == old(bits)@ + code_bits(code as nat, len as nat).take(i as int),
        decreases len - i,
    {
        let bit = (code as u64 / divisor) % 2 == 1;
        proof {
            let all = code_bits(code as nat, len as nat);
            assert(all[i as int] == bit);
            assert(all.take(i + 1) =~= all.take(i as int).push(bit));
            assert((old(bits)@ + all.take(i as int)).push(bit) =~= old(bits)@ + all.take(i + 1));
            if i + 1 < len {
                assert(two_pow((len - 1 - i) as nat) == 2 * two_pow((len - 2 - i) as nat));
            }
        }
        bits.push(bit);
        if i + 1 < len {
            divisor = divisor / 2;
        }
        i += 1;
    }
    proof {
        assert(code_bits(code as nat, len as nat).take(len as int) =~= code_bits(
            code as nat,
            len as nat,
        ));
    }
}

/// Packs bits into bytes, the first bit into the highest bit of the first
/// byte; the last byte is filled with zeros.
pub fn pack_bits(bits: &Vec<bool>) -> (bytes: Vec<u8>)
    ensures
        bytes@ == packed(bits@),
{
    let n = bits.len();
    let count = if n % 8 == 0 {
        n / 8
    } else {
        n / 8 + 1
    };
    let mut bytes: Vec<u8> = Vec::with_capacity(count);
    let mut j: usize = 0;
    while j < count
        invariant
            j <= count,
            n == bits@.len(),
            count == (n + 7) / 8,
            bytes@.len() == j,
            forall|a: int| 0 <= a < j ==> (#[trigger] bytes@[a]) == partial_byte(bits@, a, 8) as u8,
        decreases count - j,
    {
        let mut byte: u8 = 0;
        let mut k: usize = 0;
        proof {
            reveal_with_fuel(two_pow, 9);
            assert(8 * j < n);
        }
        let left = n - 8 * j;
        while k < 8
            invariant
                k <= 8,
                n == bits@.len(),
                8 * j < n,
                left == n - 8 * j,
                byte == partial_byte(bits@, j as int, k as nat),
                byte as int + two_pow((8 - k) as nat) <= 256,
            decreases 8 - k,
        {
            proof {
                reveal_with_fuel(two_pow, 9);
            }
            let w = weight_of_bit(k);
            if k < left && bits[8 * j + k] {
                byte = byte + w;
            }
            k += 1;
        }
        bytes.push(byte);
        j += 1;
    }
    proof {
        assert(bytes@ =~= packed(bits@));
    }
    bytes
}

} // verus!
