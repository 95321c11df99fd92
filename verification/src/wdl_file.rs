//! The table file: a header with the material key, then the compressed
//! values. All integers are little-endian.
//!
//! | Offset | Size | Field |
//! |---|---|---|
//! | 0 | 4 | Magic `HBWD` |
//! | 4 | 1 | Version, `1` |
//! | 5 | 1 | Length `L` of the material key |
//! | 6 | L | Material key, as text |
//! | 6+L | 8 | Number of positions |
//! | … | | `base_symbols` (u16), number of pairs (u16), the pairs (two u16 each), number of code lengths (u16), the code lengths, `bit_len` (u64), number of stream bytes (u32), the stream |

use crate::compression::{
    compress_wdl, compressed, decompressed, try_decompress_wdl, CompressedModel, CompressedWdl,
};
use crate::material_key::text::{ascii_text, key_text, parse_key};
use crate::material_key::MaterialKey;
use crate::wdl_score_range::WdlScoreRange;
use crate::wdl_table::WdlTable;
use vstd::bytes::{
    spec_u16_from_le_bytes, spec_u16_to_le_bytes, spec_u32_from_le_bytes, spec_u32_to_le_bytes,
    spec_u64_from_le_bytes, spec_u64_to_le_bytes, u16_from_le_bytes, u16_to_le_bytes,
    u32_from_le_bytes, u32_to_le_bytes, u64_from_le_bytes, u64_to_le_bytes,
};
use vstd::prelude::*;
use vstd::slice::slice_subrange;
use vstd::string::*;
use vstd::utf8::encode_utf8;

verus! {

/// Why a table cannot be written, or bytes are no table file.
#[derive(Debug, Clone, Copy, PartialEq, Eq, Structural)]
pub enum WdlFileError {
    /// The file does not begin with `HBWD`.
    BadMagic,
    /// The file has another version than `1`.
    UnsupportedVersion,
    /// The file ends before a field does.
    Truncated,
    /// The text of the material key names no material.
    InvalidMaterialKey,
    /// The material of the file is not the material asked for.
    MismatchedMaterial,
    /// The compressed values are not well formed.
    MalformedPayload,
    /// The table has a part too large for its length field.
    TooLarge,
}

/// The version of the format.
pub const VERSION: u8 = 1;

/// The four bytes `HBWD`.
pub open spec fn magic() -> Seq<u8> {
    seq![72u8, 66u8, 87u8, 68u8]
}

/// The bytes of the pairs, one pair after the other.
pub open spec fn pairs_bytes(pairs: Seq<(u16, u16)>) -> Seq<u8>
    decreases pairs.len(),
{
    if pairs.len() == 0 {
        Seq::empty()
    } else {
        pairs_bytes(pairs.drop_last()) + spec_u16_to_le_bytes(pairs.last().0)
            + spec_u16_to_le_bytes(pairs.last().1)
    }
}

/// Whether every part of the table fits its length field.
pub open spec fn fits_file(key: Seq<u8>, data: CompressedModel) -> bool {
    &&& key.len() <= 255
    &&& data.orig_len <= u64::MAX
    &&& data.sym_pairs.len() <= 65535
    &&& data.code_lens.len() <= 65535
    &&& data.bit_len <= u64::MAX
    &&& data.bitstream.len() <= u32::MAX
}

/// The bytes of the file of a table with the key text `key` and the
/// compressed values `data`.
pub open spec fn file_bytes(key: Seq<u8>, data: CompressedModel) -> Seq<u8> {
    magic() + seq![VERSION] + seq![key.len() as u8] + key + spec_u64_to_le_bytes(
        data.orig_len as u64,
    ) + spec_u16_to_le_bytes(data.base_symbols) + spec_u16_to_le_bytes(data.sym_pairs.len() as u16)
        + pairs_bytes(data.sym_pairs) + spec_u16_to_le_bytes(data.code_lens.len() as u16)
        + data.code_lens + spec_u64_to_le_bytes(data.bit_len as u64) + spec_u32_to_le_bytes(
        data.bitstream.len() as u32,
    ) + data.bitstream
}

/// The 16-bit number at `pos`.
pub open spec fn u16_at(bytes: Seq<u8>, pos: int) -> u16 {
    spec_u16_from_le_bytes(bytes.subrange(pos, pos + 2))
}

/// The pairs of a file: `count` pairs from `pos` on.
pub open spec fn pairs_at(bytes: Seq<u8>, pos: int, count: nat) -> Seq<(u16, u16)> {
    Seq::new(count, |k: int| (u16_at(bytes, pos + 4 * k), u16_at(bytes, pos + 4 * k + 2)))
}

/// The compressed values of a file whose payload begins at `pos`, after
/// the number of positions `orig_len`.
pub open spec fn payload_at(bytes: Seq<u8>, pos: int, orig_len: u64) -> Result<
    CompressedModel,
    WdlFileError,
> {
    if pos + 4 > bytes.len() {
        Err(WdlFileError::Truncated)
    } else {
        let base_symbols = u16_at(bytes, pos);
        let pair_count = u16_at(bytes, pos + 2) as int;
        let lens_at = pos + 4 + 4 * pair_count;
        if lens_at + 2 > bytes.len() {
            Err(WdlFileError::Truncated)
        } else {
            let lens_count = u16_at(bytes, lens_at) as int;
            let bits_at = lens_at + 2 + lens_count;
            if bits_at + 12 > bytes.len() {
                Err(WdlFileError::Truncated)
            } else {
                let bit_len = spec_u64_from_le_bytes(bytes.subrange(bits_at, bits_at + 8));
                let stream_len = spec_u32_from_le_bytes(bytes.subrange(bits_at + 8, bits_at + 12))
                    as int;
                if bits_at + 12 + stream_len > bytes.len() {
                    Err(WdlFileError::Truncated)
                } else if bit_len > usize::MAX || orig_len > usize::MAX {
                    Err(WdlFileError::TooLarge)
                } else {
                    Ok(
                        CompressedModel {
                            base_symbols,
                            sym_pairs: pairs_at(bytes, pos + 4, pair_count as nat),
                            code_lens: bytes.subrange(lens_at + 2, bits_at),
                            bitstream: bytes.subrange(bits_at + 12, bits_at + 12 + stream_len),
                            bit_len: bit_len as nat,
                            orig_len: orig_len as nat,
                        },
                    )
                }
            }
        }
    }
}

/// The key text and the compressed values of a file.
pub open spec fn file_parts(bytes: Seq<u8>) -> Result<(Seq<u8>, CompressedModel), WdlFileError> {
    if bytes.len() < 4 {
        Err(WdlFileError::Truncated)
    } else if bytes.subrange(0, 4) != magic() {
        Err(WdlFileError::BadMagic)
    } else if bytes.len() < 5 {
        Err(WdlFileError::Truncated)
    } else if bytes[4] != VERSION {
        Err(WdlFileError::UnsupportedVersion)
    } else if bytes.len() < 6 || bytes.len() < 6 + bytes[5] + 8 {
        Err(WdlFileError::Truncated)
    } else {
        let key_len = bytes[5] as int;
        let orig_len = spec_u64_from_le_bytes(bytes.subrange(6 + key_len, 14 + key_len));
        match payload_at(bytes, 14 + key_len, orig_len) {
            Ok(data) => Ok((bytes.subrange(6, 6 + key_len), data)),
            Err(e) => Err(e),
        }
    }
}

/// The table of a file: its material and its values.
pub open spec fn file_table(bytes: Seq<u8>) -> Result<
    (MaterialKey, Seq<WdlScoreRange>),
    WdlFileError,
> {
    match file_parts(bytes) {
        Err(e) => Err(e),
        Ok((key, data)) => match ascii_text(key) {
            None => Err(WdlFileError::InvalidMaterialKey),
            Some(text) => match parse_key(text) {
                None => Err(WdlFileError::InvalidMaterialKey),
                Some(material) => match decompressed(data) {
                    None => Err(WdlFileError::MalformedPayload),
                    Some(values) => Ok((material, values)),
                },
            },
        },
    }
}

/// Appends bytes.
fn append_bytes(out: &mut Vec<u8>, bytes: &[u8])
    ensures
        final(out)@ == old(out)@ + bytes@,
{
    let mut i: usize = 0;
    proof {
        assert(old(out)@ + bytes@.take(0) =~= old(out)@);
    }
    while i < bytes.len()
        invariant
            i <= bytes@.len(),
            out@ == old(out)@ + bytes@.take(i as int),
        decreases bytes@.len() - i,
    {
        out.push(bytes[i]);
        proof {
            assert((old(out)@ + bytes@.take(i as int)).push(bytes@[i as int]) =~= old(out)@
                + bytes@.take(i + 1));
        }
        i += 1;
    }
    proof {
        assert(bytes@.take(bytes@.len() as int) =~= bytes@);
    }
}

/// The bytes of the file of a table with the key text `key` and the
/// compressed values `data`; `None` where a part does not fit its length
/// field.
pub fn encode_wdl_file(key: &[u8], data: &CompressedWdl) -> (r: Option<Vec<u8>>)
    ensures
        r.is_some() <==> fits_file(key@, data@),
        r.is_some() ==> r.unwrap()@ == file_bytes(key@, data@),
{
    if key.len() > 255 || data.sym_pairs.len() > 65535 || data.code_lens.len() > 65535
        || data.bitstream.len() > 0xFFFF_FFFF {
        return None;
    }
    let mut out: Vec<u8> = Vec::new();
    out.push(72);
    out.push(66);
    out.push(87);
    out.push(68);
    out.push(VERSION);
    out.push(key.len() as u8);
    append_bytes(&mut out, key);
    append_bytes(&mut out, u64_to_le_bytes(data.orig_len as u64).as_slice());
    append_bytes(&mut out, u16_to_le_bytes(data.base_symbols).as_slice());
    append_bytes(&mut out, u16_to_le_bytes(data.sym_pairs.len() as u16).as_slice());
    let ghost head = out@;
    proof {
        assert(head =~= magic() + seq![VERSION] + seq![key@.len() as u8] + key@
            + spec_u64_to_le_bytes(data@.orig_len as u64) + spec_u16_to_le_bytes(
            data@.base_symbols,
        ) + spec_u16_to_le_bytes(data@.sym_pairs.len() as u16));
        assert(data.sym_pairs@.take(0) =~= Seq::<(u16, u16)>::empty());
        assert(head + pairs_bytes(data.sym_pairs@.take(0)) =~= head);
    }
    let mut i: usize = 0;
    while i < data.sym_pairs.len()
        invariant
            i <= data.sym_pairs@.len(),
            out@ == head + pairs_bytes(data.sym_pairs@.take(i as int)),
        decreases data.sym_pairs@.len() - i,
    {
        let (a, b) = data.sym_pairs[i];
        append_bytes(&mut out, u16_to_le_bytes(a).as_slice());
        append_bytes(&mut out, u16_to_le_bytes(b).as_slice());
        proof {
            let upto = data.sym_pairs@.take(i + 1);
            assert(upto.drop_last() =~= data.sym_pairs@.take(i as int));
            assert(upto.last() == (a, b));
            assert(out@ =~= head + pairs_bytes(upto));
        }
        i += 1;
    }
    proof {
        assert(data.sym_pairs@.take(data.sym_pairs@.len() as int) =~= data.sym_pairs@);
    }
    append_bytes(&mut out, u16_to_le_bytes(data.code_lens.len() as u16).as_slice());
    append_bytes(&mut out, data.code_lens.as_slice());
    append_bytes(&mut out, u64_to_le_bytes(data.bit_len as u64).as_slice());
    append_bytes(&mut out, u32_to_le_bytes(data.bitstream.len() as u32).as_slice());
    append_bytes(&mut out, data.bitstream.as_slice());
    proof {
        assert(out@ =~= file_bytes(key@, data@));
    }
    Some(out)
}

/// The bytes of the file of a table: its material key as text, and its
/// values compressed.
pub fn write_wdl_file(wdl_table: &WdlTable) -> (r: Result<Vec<u8>, WdlFileError>)
    ensures
        match r {
            Ok(bytes) => fits_file(
                encode_utf8(key_text(wdl_table.material)),
                compressed(wdl_table.positions@),
            ) && bytes@ == file_bytes(
                encode_utf8(key_text(wdl_table.material)),
                compressed(wdl_table.positions@),
            ),
            Err(e) => e == WdlFileError::TooLarge && !fits_file(
                encode_utf8(key_text(wdl_table.material)),
                compressed(wdl_table.positions@),
            ),
        },
{
    let mk_string = wdl_table.material.to_string();
    let key = mk_string.as_str().as_bytes();
    let data = compress_wdl(wdl_table.positions.as_slice());
    match encode_wdl_file(key, &data) {
        Some(bytes) => Ok(bytes),
        None => Err(WdlFileError::TooLarge),
    }
}

/// The 16-bit number at `pos`.
fn read_u16(bytes: &[u8], pos: usize) -> (r: u16)
    requires
        pos + 2 <= bytes@.len(),
    ensures
        r == u16_at(bytes@, pos as int),
{
    let n = bytes.len();
    u16_from_le_bytes(slice_subrange(bytes, pos, pos + 2))
}

/// The compressed values of a file whose payload begins at `pos`.
fn read_payload(bytes: &[u8], pos: usize, orig_len: u64) -> (r: Result<CompressedWdl, WdlFileError>)
    requires
        pos <= bytes@.len(),
    ensures
        match r {
            Ok(data) => payload_at(bytes@, pos as int, orig_len) == Ok::<
                CompressedModel,
                WdlFileError,
            >(data@),
            Err(e) => payload_at(bytes@, pos as int, orig_len) == Err::<
                CompressedModel,
                WdlFileError,
            >(e),
        },
{
    let n = bytes.len();
    if n - pos < 4 {
        return Err(WdlFileError::Truncated);
    }
    let base_symbols = read_u16(bytes, pos);
    let pair_count = read_u16(bytes, pos + 2) as usize;
    if (n - pos - 4) / 4 < pair_count || n - pos - 4 - 4 * pair_count < 2 {
        return Err(WdlFileError::Truncated);
    }
    let lens_at = pos + 4 + 4 * pair_count;
    let lens_count = read_u16(bytes, lens_at) as usize;
    if n - lens_at - 2 < lens_count || n - lens_at - 2 - lens_count < 12 {
        return Err(WdlFileError::Truncated);
    }
    let bits_at = lens_at + 2 + lens_count;
    let bit_len = u64_from_le_bytes(slice_subrange(bytes, bits_at, bits_at + 8));
    let stream_len = u32_from_le_bytes(slice_subrange(bytes, bits_at + 8, bits_at + 12));
    if ((n - bits_at - 12) as u64) < stream_len as u64 {
        return Err(WdlFileError::Truncated);
    }
    if bit_len > usize::MAX as u64 || orig_len > usize::MAX as u64 {
        return Err(WdlFileError::TooLarge);
    }
    let stream_len = stream_len as usize;
    let mut sym_pairs: Vec<(u16, u16)> = Vec::with_capacity(pair_count);
    let mut k: usize = 0;
    while k < pair_count
        invariant
            k <= pair_count,
            n == bytes@.len(),
            pos + 4 + 4 * pair_count + 2 <= bytes@.len(),
            sym_pairs@ == pairs_at(bytes@, pos + 4, k as nat),
        decreases pair_count - k,
    {
        let a = read_u16(bytes, pos + 4 + 4 * k);
        let b = read_u16(bytes, pos + 4 + 4 * k + 2);
        sym_pairs.push((a, b));
        proof {
            assert(sym_pairs@ =~= pairs_at(bytes@, pos + 4, (k + 1) as nat));
        }
        k += 1;
    }
    let code_lens = vstd::slice::slice_to_vec(slice_subrange(bytes, lens_at + 2, bits_at));
    let bitstream = vstd::slice::slice_to_vec(
        slice_subrange(bytes, bits_at + 12, bits_at + 12 + stream_len),
    );
    Ok(
        CompressedWdl {
            base_symbols,
            sym_pairs,
            code_lens,
            bitstream,
            bit_len: bit_len as usize,
            orig_len: orig_len as usize,
        },
    )
}

/// Reads a table from the bytes of its file.
pub fn read_wdl_file(bytes: &[u8]) -> (r: Result<WdlTable, WdlFileError>)
    ensures
        match r {
            Ok(table) => file_table(bytes@) == Ok::<(MaterialKey, Seq<WdlScoreRange>), WdlFileError>(
                (table.material, table.positions@),
            ) && table.material.wf(),
            Err(e) => file_table(bytes@) == Err::<(MaterialKey, Seq<WdlScoreRange>), WdlFileError>(
                e,
            ),
        },
{
    let n = bytes.len();
    if n < 4 {
        return Err(WdlFileError::Truncated);
    }
    if bytes[0] != 72 || bytes[1] != 66 || bytes[2] != 87 || bytes[3] != 68 {
        proof {
            let head = bytes@.subrange(0, 4);
            assert(head[0] == bytes@[0] && head[1] == bytes@[1] && head[2] == bytes@[2] && head[3]
                == bytes@[3]);
        }
        return Err(WdlFileError::BadMagic);
    }
    proof {
        assert(bytes@.subrange(0, 4) =~= magic());
    }
    if n < 5 {
        return Err(WdlFileError::Truncated);
    }
    if bytes[4] != VERSION {
        return Err(WdlFileError::UnsupportedVersion);
    }
    if n < 6 || n - 6 < bytes[5] as usize + 8 {
        return Err(WdlFileError::Truncated);
    }
    let key_len = bytes[5] as usize;
    let key = slice_subrange(bytes, 6, 6 + key_len);
    let orig_len = u64_from_le_bytes(slice_subrange(bytes, 6 + key_len, 14 + key_len));
    let data = match read_payload(bytes, 14 + key_len, orig_len) {
        Ok(data) => data,
        Err(e) => {
            return Err(e);
        },
    };
    let material = match MaterialKey::from_ascii(key) {
        Some(material) => material,
        None => {
            return Err(WdlFileError::InvalidMaterialKey);
        },
    };
    let positions = match try_decompress_wdl(&data) {
        Some(positions) => positions,
        None => {
            return Err(WdlFileError::MalformedPayload);
        },
    };
    Ok(WdlTable { material, positions })
}

/// Reads the table of the material `expected` from the bytes of its
/// file; a file of another material gives `MismatchedMaterial`.
pub fn read_wdl_file_for(bytes: &[u8], expected: &MaterialKey) -> (r: Result<
    WdlTable,
    WdlFileError,
>)
    ensures
        match r {
            Ok(table) => file_table(bytes@) == Ok::<(MaterialKey, Seq<WdlScoreRange>), WdlFileError>(
                (table.material, table.positions@),
            ) && table.material == *expected,
            Err(e) => match file_table(bytes@) {
                Ok((material, _)) => material != *expected && e == WdlFileError::MismatchedMaterial,
                Err(other) => e == other,
            },
        },
{
    match read_wdl_file(bytes) {
        Ok(table) => {
            if table.material == *expected {
                Ok(table)
            } else {
                Err(WdlFileError::MismatchedMaterial)
            }
        },
        Err(e) => Err(e),
    }
}

} // verus!
