//! Reading the file of a table gives the table back.

use crate::compression::{compressed, decompressed, lemma_round_trip, CompressedModel};
use crate::material_key::text::{ascii_text, key_text, parse_key};
use crate::material_key::MaterialKey;
use crate::wdl_file::{
    file_bytes, file_parts, file_table, fits_file, magic, pairs_at, pairs_bytes, payload_at,
    u16_at, WdlFileError, VERSION,
};
use crate::wdl_score_range::WdlScoreRange;
use vstd::bytes::{
    lemma_auto_spec_u16_to_from_le_bytes, lemma_auto_spec_u32_to_from_le_bytes,
    lemma_auto_spec_u64_to_from_le_bytes, spec_u16_to_le_bytes, spec_u32_to_le_bytes,
    spec_u64_to_le_bytes,
};
use vstd::prelude::*;
use vstd::utf8::{encode_utf8, is_ascii_chars, is_ascii_chars_encode_utf8};

verus! {

/// A part of a sequence that is made of three parts.
proof fn lemma_middle(bytes: Seq<u8>, before: Seq<u8>, part: Seq<u8>, after: Seq<u8>)
    requires
        bytes == before + part + after,
    ensures
        bytes.subrange(before.len() as int, (before.len() + part.len()) as int) == part,
        bytes.len() == before.len() + part.len() + after.len(),
{
    assert(bytes.subrange(before.len() as int, (before.len() + part.len()) as int) =~= part);
}

/// The bytes of pairs hold the pairs, four bytes each.
proof fn lemma_pairs_bytes(pairs: Seq<(u16, u16)>, k: int)
    requires
        0 <= k < pairs.len(),
    ensures
        pairs_bytes(pairs).len() == 4 * pairs.len(),
        u16_at(pairs_bytes(pairs), 4 * k) == pairs[k].0,
        u16_at(pairs_bytes(pairs), 4 * k + 2) == pairs[k].1,
    decreases pairs.len(),
{
    lemma_auto_spec_u16_to_from_le_bytes();
    let before = pairs_bytes(pairs.drop_last());
    lemma_pairs_len(pairs.drop_last());
    let a = spec_u16_to_le_bytes(pairs.last().0);
    let b = spec_u16_to_le_bytes(pairs.last().1);
    let all = pairs_bytes(pairs);
    assert(all == before + a + b);
    if k < pairs.len() - 1 {
        lemma_pairs_bytes(pairs.drop_last(), k);
        assert(all.subrange(4 * k, 4 * k + 2) =~= before.subrange(4 * k, 4 * k + 2));
        assert(all.subrange(4 * k + 2, 4 * k + 4) =~= before.subrange(4 * k + 2, 4 * k + 4));
        assert(pairs.drop_last()[k] == pairs[k]);
    } else {
        assert(all.subrange(4 * k, 4 * k + 2) =~= a);
        assert(all.subrange(4 * k + 2, 4 * k + 4) =~= b);
    }
}

proof fn lemma_pairs_len(pairs: Seq<(u16, u16)>)
    ensures
        pairs_bytes(pairs).len() == 4 * pairs.len(),
    decreases pairs.len(),
{
    lemma_auto_spec_u16_to_from_le_bytes();
    if pairs.len() > 0 {
        lemma_pairs_len(pairs.drop_last());
    }
}

/// The pairs read from a file in which their bytes stand.
proof fn lemma_pairs_at(bytes: Seq<u8>, pos: int, pairs: Seq<(u16, u16)>)
    requires
        0 <= pos,
        pos + pairs_bytes(pairs).len() <= bytes.len(),
        bytes.subrange(pos, pos + pairs_bytes(pairs).len()) == pairs_bytes(pairs),
    ensures
        pairs_at(bytes, pos, pairs.len()) == pairs,
{
    lemma_pairs_len(pairs);
    let region = pairs_bytes(pairs);
    assert forall|k: int| 0 <= k < pairs.len() implies (
        u16_at(bytes, pos + 4 * k),
        u16_at(bytes, pos + 4 * k + 2),
    ) == pairs[k] by {
        lemma_pairs_bytes(pairs, k);
        assert(bytes.subrange(pos + 4 * k, pos + 4 * k + 2) =~= region.subrange(
            4 * k,
            4 * k + 2,
        ));
        assert(bytes.subrange(pos + 4 * k + 2, pos + 4 * k + 4) =~= region.subrange(
            4 * k + 2,
            4 * k + 4,
        ));
    }
    assert(pairs_at(bytes, pos, pairs.len()) =~= pairs);
}

/// The bytes of an ASCII text are its characters.
proof fn lemma_ascii_bytes(text: Seq<char>)
    requires
        is_ascii_chars(text),
    ensures
        ascii_text(encode_utf8(text)) == Some(text),
        encode_utf8(text).len() == text.len(),
{
    is_ascii_chars_encode_utf8(text);
    let bytes = encode_utf8(text);
    assert forall|i: int| 0 <= i < bytes.len() implies (#[trigger] bytes[i]) < 128 by {
        assert(text[i] as u8 == bytes[i]);
    }
    assert(Seq::new(bytes.len(), |i: int| bytes[i] as char) =~= text) by {
        assert forall|i: int| 0 <= i < text.len() implies bytes[i] as char == text[i] by {
            assert(text[i] as u8 == bytes[i]);
        }
    }
}

/// The parts of a file that was written.
pub proof fn lemma_file_parts(key: Seq<u8>, data: CompressedModel)
    requires
        fits_file(key, data),
        data.bit_len <= usize::MAX,
        data.orig_len <= usize::MAX,
    ensures
        file_parts(file_bytes(key, data)) == Ok::<(Seq<u8>, CompressedModel), WdlFileError>(
            (key, data),
        ),
{
    lemma_auto_spec_u16_to_from_le_bytes();
    lemma_auto_spec_u32_to_from_le_bytes();
    lemma_auto_spec_u64_to_from_le_bytes();
    lemma_pairs_len(data.sym_pairs);
    let bytes = file_bytes(key, data);
    let head = magic() + seq![VERSION] + seq![key.len() as u8];
    let f_len = spec_u64_to_le_bytes(data.orig_len as u64);
    let f_base = spec_u16_to_le_bytes(data.base_symbols);
    let f_np = spec_u16_to_le_bytes(data.sym_pairs.len() as u16);
    let f_pairs = pairs_bytes(data.sym_pairs);
    let f_nl = spec_u16_to_le_bytes(data.code_lens.len() as u16);
    let f_bits = spec_u64_to_le_bytes(data.bit_len as u64);
    let f_ns = spec_u32_to_le_bytes(data.bitstream.len() as u32);
    let l = key.len() as int;
    let np = data.sym_pairs.len() as int;
    let nl = data.code_lens.len() as int;
    let ns = data.bitstream.len() as int;
    let t1 = f_len + f_base + f_np + f_pairs + f_nl + data.code_lens + f_bits + f_ns
        + data.bitstream;
    assert(bytes =~= head + key + t1);
    assert(bytes.subrange(0, 4) =~= magic());
    assert(bytes[4] == VERSION);
    assert(bytes[5] == key.len() as u8);
    lemma_middle(bytes, head, key, t1);
    let t2 = f_base + f_np + f_pairs + f_nl + data.code_lens + f_bits + f_ns + data.bitstream;
    assert(bytes =~= (head + key) + f_len + t2);
    lemma_middle(bytes, head + key, f_len, t2);
    let pos = 14 + l;
    let t3 = f_np + f_pairs + f_nl + data.code_lens + f_bits + f_ns + data.bitstream;
    assert(bytes =~= (head + key + f_len) + f_base + t3);
    lemma_middle(bytes, head + key + f_len, f_base, t3);
    let t4 = f_pairs + f_nl + data.code_lens + f_bits + f_ns + data.bitstream;
    assert(bytes =~= (head + key + f_len + f_base) + f_np + t4);
    lemma_middle(bytes, head + key + f_len + f_base, f_np, t4);
    let t5 = f_nl + data.code_lens + f_bits + f_ns + data.bitstream;
    assert(bytes =~= (head + key + f_len + f_base + f_np) + f_pairs + t5);
    lemma_middle(bytes, head + key + f_len + f_base + f_np, f_pairs, t5);
    lemma_pairs_at(bytes, pos + 4, data.sym_pairs);
    let lens_at = pos + 4 + 4 * np;
    let t6 = data.code_lens + f_bits + f_ns + data.bitstream;
    assert(bytes =~= (head + key + f_len + f_base + f_np + f_pairs) + f_nl + t6);
    lemma_middle(bytes, head + key + f_len + f_base + f_np + f_pairs, f_nl, t6);
    let t7 = f_bits + f_ns + data.bitstream;
    assert(bytes =~= (head + key + f_len + f_base + f_np + f_pairs + f_nl) + data.code_lens + t7);
    lemma_middle(
        bytes,
        head + key + f_len + f_base + f_np + f_pairs + f_nl,
        data.code_lens,
        t7,
    );
    let bits_at = lens_at + 2 + nl;
    let t8 = f_ns + data.bitstream;
    assert(bytes =~= (head + key + f_len + f_base + f_np + f_pairs + f_nl + data.code_lens)
        + f_bits + t8);
    lemma_middle(
        bytes,
        head + key + f_len + f_base + f_np + f_pairs + f_nl + data.code_lens,
        f_bits,
        t8,
    );
    assert(bytes =~= (head + key + f_len + f_base + f_np + f_pairs + f_nl + data.code_lens
        + f_bits) + f_ns + data.bitstream);
    lemma_middle(
        bytes,
        head + key + f_len + f_base + f_np + f_pairs + f_nl + data.code_lens + f_bits,
        f_ns,
        data.bitstream,
    );
    assert(bytes =~= (head + key + f_len + f_base + f_np + f_pairs + f_nl + data.code_lens
        + f_bits + f_ns) + data.bitstream + Seq::<u8>::empty());
    lemma_middle(
        bytes,
        head + key + f_len + f_base + f_np + f_pairs + f_nl + data.code_lens + f_bits + f_ns,
        data.bitstream,
        Seq::<u8>::empty(),
    );
    assert(bytes.len() == bits_at + 12 + ns);
    let read = payload_at(bytes, pos, data.orig_len as u64);
    assert(u16_at(bytes, pos) == data.base_symbols);
    assert(u16_at(bytes, pos + 2) == np);
    assert(u16_at(bytes, lens_at) == nl);
    assert(read == Ok::<CompressedModel, WdlFileError>(data));
}

/// The file of a table whose material key is canonical, read again, is
/// the table.
pub proof fn lemma_file_round_trip(material: MaterialKey, values: Seq<WdlScoreRange>)
    requires
        material.wf(),
        material.is_canonical(),
        fits_file(encode_utf8(key_text(material)), compressed(values)),
        compressed(values).bit_len <= usize::MAX,
        values.len() <= usize::MAX,
    ensures
        file_table(file_bytes(encode_utf8(key_text(material)), compressed(values))) == Ok::<
            (MaterialKey, Seq<WdlScoreRange>),
            WdlFileError,
        >((material, values)),
{
    let text = key_text(material);
    material.lemma_key_text_is_ascii();
    lemma_ascii_bytes(text);
    material.lemma_text_round_trip();
    lemma_round_trip(values);
    lemma_file_parts(encode_utf8(text), compressed(values));
}

} // verus!
