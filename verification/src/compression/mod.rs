//! Table compression: pair substitution followed by canonical Huffman coding.

pub mod codes;
pub mod huffman;
pub mod illegal_runs;
pub mod kraft;
pub mod pairs;
pub mod repetition;
pub mod tree;

use crate::compression::codes::{
    all_coded, encoded, is_prefix, lemma_encoded_push, lemma_packed, pack_bits, packed,
    push_code_bits, stream_bits, symbol_bits,
};
use crate::compression::huffman::{
    build_codes_from_lengths, build_huffman_code_lengths, canonical_codes, code_length, code_of,
    frequencies, huffman_lengths, lemma_two_pow, lengths_valid, next_code, occurrences, two_pow,
    MAX_CODE_LEN,
};
use crate::compression::pairs::{
    check_pairs, expand_symbol, expanded, expanded_symbol, lemma_expanded_base,
    lemma_expanded_symbol_is_base, lemma_substituted, pair_substitution, pairs_wf, substituted,
    symbols_below,
};
use crate::compression::tree::{build_decoding_tree, decode_bitstream, lemma_common_front};
use crate::compression::repetition::lemma_repetition_shrinks;
use crate::wdl_score_range::{wdl_code, wdl_from_code, WdlScoreRange};
use vstd::prelude::*;

verus! {

/// Result of compressing a sequence of `WdlScoreRange` values.
#[derive(Debug, Clone)]
pub struct CompressedWdl {
    /// Number of base symbols. For `WdlScoreRange` this is fixed but storing
    /// it makes the format self contained.
    pub base_symbols: u16,
    /// Pairs for newly created symbols. Symbol `i` (>= base_symbols) expands
    /// to `sym_pairs[i - base_symbols]`.
    pub sym_pairs: Vec<(u16, u16)>,
    /// Huffman code lengths for all symbols (base and generated).
    pub code_lens: Vec<u8>,
    /// Encoded bit stream.
    pub bitstream: Vec<u8>,
    /// Number of valid bits in `bitstream`.
    pub bit_len: usize,
    /// Length of the decompressed table.
    pub orig_len: usize,
}

/// A compressed table as a mathematical value.
pub struct CompressedModel {
    pub base_symbols: u16,
    pub sym_pairs: Seq<(u16, u16)>,
    pub code_lens: Seq<u8>,
    pub bitstream: Seq<u8>,
    pub bit_len: nat,
    pub orig_len: nat,
}

impl View for CompressedWdl {
    type V = CompressedModel;

    open spec fn view(&self) -> CompressedModel {
        CompressedModel {
            base_symbols: self.base_symbols,
            sym_pairs: self.sym_pairs@,
            code_lens: self.code_lens@,
            bitstream: self.bitstream@,
            bit_len: self.bit_len as nat,
            orig_len: self.orig_len as nat,
        }
    }
}

/// Number of base symbols: the values of `WdlScoreRange`.
pub const BASE_SYMBOLS: u16 = 7;

/// The values as symbols: each value by its code.
pub open spec fn value_symbols(values: Seq<WdlScoreRange>) -> Seq<u16> {
    Seq::new(values.len(), |i: int| wdl_code(values[i]) as u16)
}

/// The values that base symbols stand for.
pub open spec fn symbol_values(symbols: Seq<u16>) -> Seq<WdlScoreRange> {
    Seq::new(symbols.len(), |i: int| wdl_from_code(symbols[i] as int).unwrap())
}

/// Code lengths that always yield a code: 16 bits for each symbol that occurs.
pub open spec fn fixed_lengths(freqs: Seq<usize>) -> Seq<u8> {
    Seq::new(
        freqs.len(),
        |s: int|
            if freqs[s] > 0 {
                16u8
            } else {
                0u8
            },
    )
}

/// Whether no code is longer than a code word holds: 32 bits.
pub open spec fn fits_code_words(lens: Seq<u8>) -> bool {
    forall|s: int| 0 <= s < lens.len() ==> (#[trigger] lens[s]) <= MAX_CODE_LEN
}

/// The code lengths that a sequence is written with: its Huffman code
/// lengths or, where one of them is above 32 bits, 16 bits for each symbol
/// that occurs.
pub open spec fn chosen_lengths(seq: Seq<u16>, count: nat) -> Seq<u8> {
    let freqs = frequencies(seq, count);
    if fits_code_words(huffman_lengths(freqs)) {
        huffman_lengths(freqs)
    } else {
        fixed_lengths(freqs)
    }
}

/// Huffman code lengths yield a code exactly where none is above 32 bits.
pub proof fn lemma_huffman_code(freqs: Seq<usize>)
    requires
        freqs.len() <= 65536,
    ensures
        lengths_valid(huffman_lengths(freqs)) == fits_code_words(huffman_lengths(freqs)),
{
    let lens = huffman_lengths(freqs);
    if fits_code_words(lens) {
        assert forall|s: int| 0 <= s < freqs.len() implies #[trigger] code_length(freqs, s)
            <= 32 by {
            assert(lens[s] == code_length(freqs, s));
        }
        crate::compression::kraft::lemma_huffman_lengths_valid(freqs);
    }
}

/// The compressed form of a sequence of values: the values as symbols
/// after pair substitution, written in the canonical code of the chosen
/// lengths and packed into bytes.
pub open spec fn compressed(values: Seq<WdlScoreRange>) -> CompressedModel {
    let (seq, sym_pairs) = substituted(value_symbols(values), Seq::empty(), BASE_SYMBOLS);
    let code_lens = chosen_lengths(seq, (BASE_SYMBOLS + sym_pairs.len()) as nat);
    let bits = encoded(seq, canonical_codes(code_lens));
    CompressedModel {
        base_symbols: BASE_SYMBOLS,
        sym_pairs,
        code_lens,
        bitstream: packed(bits),
        bit_len: bits.len(),
        orig_len: values.len(),
    }
}

/// A compressed table whose parts fit together: at most seven base
/// symbols, each pair made of earlier symbols, a code length for each
/// symbol, lengths that yield a code, and a stream that holds all its bits.
pub open spec fn well_formed(data: CompressedModel) -> bool {
    &&& data.base_symbols <= BASE_SYMBOLS
    &&& pairs_wf(data.sym_pairs, data.base_symbols)
    &&& data.code_lens.len() == data.base_symbols + data.sym_pairs.len()
    &&& lengths_valid(data.code_lens)
    &&& data.bit_len <= 8 * data.bitstream.len()
}

/// Whether the bits of the stream are the codes of `seq`, one after the other.
pub open spec fn is_decoding(data: CompressedModel, seq: Seq<u16>) -> bool {
    &&& all_coded(seq, canonical_codes(data.code_lens))
    &&& encoded(seq, canonical_codes(data.code_lens)) == stream_bits(data.bitstream, data.bit_len)
}

/// The symbols that the stream of a well-formed table holds.
pub open spec fn decoded_symbols(data: CompressedModel) -> Option<Seq<u16>> {
    if well_formed(data) && exists|seq: Seq<u16>| is_decoding(data, seq) {
        Some(choose|seq: Seq<u16>| is_decoding(data, seq))
    } else {
        None
    }
}

/// The values that a compressed table stands for: the symbols of its
/// stream, each expanded to base symbols, if these are as many as the table
/// says. A table that is not well formed stands for nothing.
pub open spec fn decompressed(data: CompressedModel) -> Option<Seq<WdlScoreRange>> {
    match decoded_symbols(data) {
        Some(seq) => {
            let base = expanded(seq, data.sym_pairs, data.base_symbols);
            if base.len() == data.orig_len {
                Some(symbol_values(base))
            } else {
                None
            }
        },
        None => None,
    }
}

/// A stream is the codes of at most one sequence of symbols.
pub proof fn lemma_unique_decoding(data: CompressedModel, a: Seq<u16>, b: Seq<u16>)
    requires
        lengths_valid(data.code_lens),
        is_decoding(data, a),
        is_decoding(data, b),
    ensures
        a == b,
{
    let codes = canonical_codes(data.code_lens);
    let bits = encoded(a, codes);
    assert(is_prefix(bits + Seq::<bool>::empty(), bits)) by {
        assert(bits + Seq::<bool>::empty() =~= bits);
        assert(bits.take(bits.len() as int) =~= bits);
    }
    lemma_common_front(a, b, Seq::empty(), data.code_lens);
    lemma_common_front(b, a, Seq::empty(), data.code_lens);
    assert(a.take(a.len() as int) =~= a);
}

/// Where the stream is the codes of `seq`, these are its symbols.
pub proof fn lemma_decoded_symbols(data: CompressedModel, seq: Seq<u16>)
    requires
        well_formed(data),
        is_decoding(data, seq),
    ensures
        decoded_symbols(data) == Some(seq),
{
    let chosen = choose|s: Seq<u16>| is_decoding(data, s);
    lemma_unique_decoding(data, chosen, seq);
}

/// A symbol that occurs in a sequence has a frequency above zero.
pub proof fn lemma_occurs(seq: Seq<u16>, i: int, n: nat)
    requires
        0 <= i < n <= seq.len(),
    ensures
        occurrences(seq, seq[i] as int, n) >= 1,
    decreases n,
{
    if i < n - 1 {
        lemma_occurs(seq, i, (n - 1) as nat);
    }
}

/// With no length but `0` and `16`, the codes of 16 bits count the symbols
/// that have one.
proof fn lemma_fixed_codes(lens: Seq<u8>, len: nat, s: nat)
    requires
        forall|t: int| 0 <= t < lens.len() ==> (#[trigger] lens[t]) == 0 || lens[t] == 16,
        len <= 16,
        s <= lens.len(),
    ensures
        len < 16 ==> next_code(lens, len, s) == 0,
        len == 16 ==> next_code(lens, len, s) <= s,
    decreases len, s,
{
    if len == 0 {
    } else if s == 0 {
        lemma_fixed_codes(lens, (len - 1) as nat, lens.len());
    } else {
        lemma_fixed_codes(lens, len, (s - 1) as nat);
    }
}

/// Sixteen bits for each symbol that occurs always yield a code.
pub proof fn lemma_fixed_lengths_valid(freqs: Seq<usize>)
    requires
        freqs.len() <= 65536,
    ensures
        lengths_valid(fixed_lengths(freqs)),
{
    let lens = fixed_lengths(freqs);
    lemma_two_pow(16);
    assert forall|s: int| 0 <= s < lens.len() implies (#[trigger] lens[s]) <= 32 && (lens[s] > 0
        ==> code_of(lens, s) < two_pow(lens[s] as nat)) by {
        if lens[s] > 0 {
            lemma_fixed_codes(lens, 16, s as nat);
        }
    }
}

/// The chosen lengths yield a code, and give each symbol of the sequence one.
pub proof fn lemma_chosen_lengths(seq: Seq<u16>, count: nat)
    requires
        count <= 65536,
        symbols_below(seq, count as int),
    ensures
        lengths_valid(chosen_lengths(seq, count)),
        chosen_lengths(seq, count).len() == count,
        all_coded(seq, canonical_codes(chosen_lengths(seq, count))),
{
    let freqs = frequencies(seq, count);
    let lens = chosen_lengths(seq, count);
    lemma_fixed_lengths_valid(freqs);
    lemma_huffman_code(freqs);
    assert forall|i: int| 0 <= i < seq.len() implies (#[trigger] seq[i]) < canonical_codes(
        lens,
    ).len() && canonical_codes(lens)[seq[i] as int].1 > 0 by {
        lemma_occurs(seq, i, seq.len());
        let s = seq[i] as int;
        assert(freqs[s] > 0);
        assert(code_length(freqs, s) > 0);
        assert(huffman_lengths(freqs)[s] > 0);
        assert(fixed_lengths(freqs)[s] > 0);
    }
}

/// The symbols of the values give the values back.
pub proof fn lemma_symbol_values(values: Seq<WdlScoreRange>)
    ensures
        symbols_below(value_symbols(values), BASE_SYMBOLS as int),
        symbol_values(value_symbols(values)) == values,
{
    assert(symbol_values(value_symbols(values)) =~= values);
}

/// Decompressing what was compressed gives the values back.
pub proof fn lemma_round_trip(values: Seq<WdlScoreRange>)
    ensures
        well_formed(compressed(values)),
        decompressed(compressed(values)) == Some(values),
{
    let first = value_symbols(values);
    lemma_symbol_values(values);
    let (seq, sym_pairs) = substituted(first, Seq::empty(), BASE_SYMBOLS);
    lemma_substituted(first, Seq::empty(), BASE_SYMBOLS);
    lemma_expanded_base(first, Seq::empty(), BASE_SYMBOLS);
    let count = (BASE_SYMBOLS + sym_pairs.len()) as nat;
    lemma_chosen_lengths(seq, count);
    let data = compressed(values);
    let bits = encoded(seq, canonical_codes(data.code_lens));
    lemma_packed(bits);
    assert(data.bit_len <= 8 * data.bitstream.len());
    assert(is_decoding(data, seq));
    lemma_decoded_symbols(data, seq);
}

/// The values as symbols.
fn symbols_of_values(values: &[WdlScoreRange]) -> (first: Vec<u16>)
    ensures
        first@ == value_symbols(values@),
{
    let mut first: Vec<u16> = Vec::with_capacity(values.len());
    let mut i: usize = 0;
    while i < values.len()
        invariant
            i <= values@.len(),
            first@ == value_symbols(values@).take(i as int),
        decreases values@.len() - i,
    {
        first.push(values[i].code() as u16);
        proof {
            assert(value_symbols(values@).take(i + 1) =~= value_symbols(values@).take(
                i as int,
            ).push(wdl_code(values@[i as int]) as u16));
        }
        i += 1;
    }
    proof {
        assert(value_symbols(values@).take(values@.len() as int) =~= value_symbols(values@));
    }
    first
}

/// The code lengths that `seq` is written with, and their canonical codes.
fn choose_code(seq: &Vec<u16>, symbols_count: usize) -> (r: (Vec<u8>, Vec<(u32, u8)>))
    requires
        symbols_count <= 65536,
        symbols_below(seq@, symbols_count as int),
    ensures
        r.0@ == chosen_lengths(seq@, symbols_count as nat),
        r.1@ == canonical_codes(r.0@),
        lengths_valid(r.0@),
{
    let ghost freqs = frequencies(seq@, symbols_count as nat);
    proof {
        lemma_fixed_lengths_valid(freqs);
        lemma_huffman_code(freqs);
    }
    let huffman = build_huffman_code_lengths(seq, symbols_count);
    match build_codes_from_lengths(&huffman) {
        Some(codes) => (huffman, codes),
        None => {
            let mut fixed: Vec<u8> = Vec::with_capacity(symbols_count);
            let mut s: usize = 0;
            while s < symbols_count
                invariant
                    s <= symbols_count,
                    huffman@ == huffman_lengths(freqs),
                    freqs.len() == symbols_count,
                    fixed@.len() == s,
                    forall|t: int| 0 <= t < s ==> (#[trigger] fixed@[t]) == fixed_lengths(freqs)[t],
                decreases symbols_count - s,
            {
                proof {
                    assert(huffman@[s as int] == code_length(freqs, s as int));
                }
                fixed.push(if huffman[s] > 0 { 16 } else { 0 });
                s += 1;
            }
            proof {
                assert(fixed@ =~= fixed_lengths(freqs));
            }
            match build_codes_from_lengths(&fixed) {
                Some(codes) => (fixed, codes),
                None => (fixed, Vec::new()),
            }
        },
    }
}

/// The bits of `seq`: the codes of its symbols, one after the other.
fn encode_symbols(seq: &Vec<u16>, codes: &Vec<(u32, u8)>, Ghost(lens): Ghost<Seq<u8>>) -> (bits: Vec<
    bool,
>)
    requires
        lengths_valid(lens),
        codes@ == canonical_codes(lens),
        all_coded(seq@, codes@),
    ensures
        bits@ == encoded(seq@, codes@),
        bits@.len() <= 32 * seq@.len(),
{
    let mut bits: Vec<bool> = Vec::new();
    let mut j: usize = 0;
    proof {
        assert(seq@.take(0) =~= Seq::<u16>::empty());
    }
    while j < seq.len()
        invariant
            j <= seq@.len(),
            codes@ == canonical_codes(lens),
            lengths_valid(lens),
            all_coded(seq@, codes@),
            bits@ == encoded(seq@.take(j as int), codes@),
            bits@.len() <= 32 * j,
        decreases seq@.len() - j,
    {
        let sym = seq[j];
        let (code, len) = codes[sym as usize];
        proof {
            assert(lens[sym as int] == len);
            lemma_encoded_push(seq@.take(j as int), sym, codes@);
            assert(seq@.take(j + 1) =~= seq@.take(j as int).push(sym));
        }
        push_code_bits(code, len, &mut bits);
        j += 1;
    }
    proof {
        assert(seq@.take(seq@.len() as int) =~= seq@);
    }
    bits
}

/// Compress a slice of `WdlScoreRange` values using pair substitution and
/// Huffman coding.
///
/// What comes out decompresses to `values`, and a table of eight values
/// or more that are all the same takes no more bytes than it has values.
pub fn compress_wdl(values: &[WdlScoreRange]) -> (r: CompressedWdl)
    ensures
        r@ == compressed(values@),
        decompressed(r@) == Some(values@),
        values@.len() >= 8 && (forall|i: int|
            0 <= i < values@.len() ==> (#[trigger] values@[i]) == values@[0])
            ==> r@.bitstream.len() <= values@.len(),
{
    let first = symbols_of_values(values);
    proof {
        if values@.len() >= 8 && (forall|i: int|
            0 <= i < values@.len() ==> (#[trigger] values@[i]) == values@[0]) {
            lemma_repetition_shrinks(values@);
        }
        lemma_symbol_values(values@);
        lemma_substituted(value_symbols(values@), Seq::empty(), BASE_SYMBOLS);
        lemma_round_trip(values@);
    }
    let (seq, sym_pairs) = pair_substitution(first, BASE_SYMBOLS);
    let symbols_count = BASE_SYMBOLS as usize + sym_pairs.len();
    proof {
        lemma_chosen_lengths(seq@, symbols_count as nat);
    }
    let (code_lens, codes) = choose_code(&seq, symbols_count);
    let bits = encode_symbols(&seq, &codes, Ghost(code_lens@));
    let bit_len = bits.len();
    let bitstream = pack_bits(&bits);
    CompressedWdl {
        base_symbols: BASE_SYMBOLS,
        sym_pairs,
        code_lens,
        bitstream,
        bit_len,
        orig_len: values.len(),
    }
}

/// Decompress a compressed WDL table, or `None` where it is not well
/// formed, its stream is no sequence of codes, or it does not hold as many
/// values as it says.
pub fn try_decompress_wdl(data: &CompressedWdl) -> (r: Option<Vec<WdlScoreRange>>)
    ensures
        match r {
            Some(values) => decompressed(data@) == Some(values@),
            None => decompressed(data@).is_none(),
        },
{
    if data.base_symbols > BASE_SYMBOLS {
        return None;
    }
    if !check_pairs(&data.sym_pairs, data.base_symbols) {
        return None;
    }
    if data.code_lens.len() != data.base_symbols as usize + data.sym_pairs.len() {
        return None;
    }
    if !(data.bit_len / 8 < data.bitstream.len() || (data.bit_len / 8 == data.bitstream.len()
        && data.bit_len % 8 == 0)) {
        return None;
    }
    let codes = match build_codes_from_lengths(&data.code_lens) {
        Some(codes) => codes,
        None => {
            return None;
        },
    };
    proof {
        assert(well_formed(data@));
    }
    let (nodes, Ghost(paths)) = build_decoding_tree(&codes, Ghost(data.code_lens@));
    let seq = match decode_bitstream(
        &data.bitstream,
        data.bit_len,
        &nodes,
        Ghost(paths),
        Ghost(data.code_lens@),
    ) {
        Some(seq) => seq,
        None => {
            proof {
                assert forall|s: Seq<u16>| !is_decoding(data@, s) by {
                    if all_coded(s, canonical_codes(data.code_lens@)) {
                    }
                }
            }
            return None;
        },
    };
    proof {
        assert(is_decoding(data@, seq@));
        lemma_decoded_symbols(data@, seq@);
    }
    // Expand symbols back to base values
    let mut output: Vec<u16> = Vec::new();
    let mut i: usize = 0;
    proof {
        assert(seq@.take(0) =~= Seq::<u16>::empty());
    }
    while i < seq.len()
        invariant
            i <= seq@.len(),
            pairs_wf(data.sym_pairs@, data.base_symbols),
            data.base_symbols <= BASE_SYMBOLS,
            symbols_below(seq@, data.base_symbols + data.sym_pairs@.len()),
            output@ == expanded(seq@.take(i as int), data.sym_pairs@, data.base_symbols),
            symbols_below(output@, data.base_symbols as int),
        decreases seq@.len() - i,
    {
        let ghost before = output@;
        expand_symbol(seq[i], &data.sym_pairs, data.base_symbols, &mut output);
        proof {
            assert(seq@.take(i + 1).drop_last() =~= seq@.take(i as int));
            assert(seq@.take(i + 1).last() == seq@[i as int]);
            lemma_expanded_symbol_is_base(seq@[i as int], data.sym_pairs@, data.base_symbols);
            let added = expanded_symbol(seq@[i as int], data.sym_pairs@, data.base_symbols);
            assert forall|k: int| 0 <= k < output@.len() implies (#[trigger] output@[k])
                < data.base_symbols by {
                if k < before.len() {
                    assert(output@[k] == before[k]);
                } else {
                    assert(output@[k] == added[k - before.len()]);
                }
            }
        }
        i += 1;
    }
    proof {
        assert(seq@.take(seq@.len() as int) =~= seq@);
    }
    if output.len() != data.orig_len {
        return None;
    }
    let mut values: Vec<WdlScoreRange> = Vec::with_capacity(output.len());
    let mut k: usize = 0;
    while k < output.len()
        invariant
            k <= output@.len(),
            symbols_below(output@, BASE_SYMBOLS as int),
            values@ == symbol_values(output@).take(k as int),
        decreases output@.len() - k,
    {
        let value = match WdlScoreRange::from_code(output[k] as u8) {
            Some(value) => value,
            None => WdlScoreRange::Unknown,
        };
        values.push(value);
        proof {
            assert(symbol_values(output@).take(k + 1) =~= symbol_values(output@).take(
                k as int,
            ).push(value));
        }
        k += 1;
    }
    proof {
        assert(symbol_values(output@).take(output@.len() as int) =~= symbol_values(output@));
    }
    Some(values)
}

/// Decompress a previously compressed WDL table.
pub fn decompress_wdl(data: &CompressedWdl) -> (r: Vec<WdlScoreRange>)
    requires
        decompressed(data@).is_some(),
    ensures
        Some(r@) == decompressed(data@),
{
    match try_decompress_wdl(data) {
        Some(values) => values,
        None => Vec::new(),
    }
}

} // verus!
