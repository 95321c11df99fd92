use heisenbase::compression::illegal_runs::rewrite_illegal_runs;
use heisenbase::compression::{compress_wdl, decompress_wdl, try_decompress_wdl, CompressedWdl};
use heisenbase::wdl_score_range::WdlScoreRange;
use heisenbase::wdl_score_range::WdlScoreRange::{
    Draw, DrawOrLoss, IllegalPosition, Loss, Unknown, Win, WinOrDraw,
};

#[test]
fn round_trip_simple() {
    let data = vec![Win, Win, Draw, Draw, Win, Win, Draw, Draw];
    let compressed = compress_wdl(&data);
    let decompressed = decompress_wdl(&compressed);
    assert_eq!(decompressed, data);
}

#[test]
fn round_trip_mixed_values() {
    let data = vec![Win, Draw, Loss, WinOrDraw, DrawOrLoss, Draw, Win, Loss];
    let compressed = compress_wdl(&data);
    let decompressed = decompress_wdl(&compressed);
    assert_eq!(decompressed, data);
}

#[test]
fn compression_is_effective_for_repetition() {
    let data = vec![Win; 100];
    let compressed = compress_wdl(&data);
    // Bitstream should be smaller than the 100 values.
    assert!(compressed.bitstream.len() < data.len());
    let decompressed = decompress_wdl(&compressed);
    assert_eq!(decompressed, data);
}

#[test]
fn round_trip_with_illegal_positions() {
    let data = vec![
        IllegalPosition,
        IllegalPosition,
        Draw,
        IllegalPosition,
        Win,
        Unknown,
        IllegalPosition,
    ];
    let compressed = compress_wdl(&data);
    assert_eq!(decompress_wdl(&compressed), data);
}

#[test]
fn round_trip_of_nothing_and_of_one_value() {
    let none: Vec<WdlScoreRange> = Vec::new();
    let compressed = compress_wdl(&none);
    assert_eq!(compressed.base_symbols, 7);
    assert_eq!(compressed.orig_len, 0);
    assert_eq!(compressed.bit_len, 0);
    assert!(compressed.bitstream.is_empty());
    assert!(compressed.sym_pairs.is_empty());
    assert_eq!(compressed.code_lens, vec![0u8; 7]);
    assert_eq!(decompress_wdl(&compressed), none);

    let one = vec![Loss];
    let compressed = compress_wdl(&one);
    // the only symbol gets a code of one bit
    assert_eq!(compressed.code_lens, vec![0, 0, 0, 0, 0, 1, 0]);
    assert_eq!(compressed.bit_len, 1);
    assert_eq!(compressed.bitstream, vec![0u8]);
    assert_eq!(decompress_wdl(&compressed), one);
}

#[test]
fn pair_substitution_takes_the_most_frequent_pair_first() {
    // (Win, Draw) occurs three times, every other pair at most twice
    let data = vec![Win, Draw, Win, Draw, Win, Draw, Loss, Loss, Loss];
    let compressed = compress_wdl(&data);
    assert_eq!(compressed.sym_pairs[0], (3, 4));
    assert_eq!(compressed.orig_len, 9);
    assert_eq!(
        compressed.code_lens.len(),
        7 + compressed.sym_pairs.len()
    );
    assert_eq!(decompress_wdl(&compressed), data);
}

#[test]
fn exact_stream_of_a_small_table() {
    // no pair occurs twice: the symbols 3 (Win) and 4 (Draw) get one bit each
    let data = vec![Win, Draw, Draw, Win];
    let compressed = compress_wdl(&data);
    assert!(compressed.sym_pairs.is_empty());
    assert_eq!(compressed.code_lens, vec![0, 0, 0, 1, 1, 0, 0]);
    assert_eq!(compressed.bit_len, 4);
    // Win = 0, Draw = 1, first bit in the highest place: 0110 0000
    assert_eq!(compressed.bitstream, vec![0b0110_0000]);
}

#[test]
fn all_equal_tables_shrink() {
    for len in [8usize, 9, 15, 16, 17, 100, 1000] {
        for value in [Unknown, Win, IllegalPosition] {
            let data = vec![value; len];
            let compressed = compress_wdl(&data);
            assert!(compressed.bitstream.len() <= data.len());
            assert_eq!(decompress_wdl(&compressed), data);
        }
    }
}

#[test]
fn malformed_tables_are_refused() {
    let data = vec![Win, Draw, Win, Draw, Win, Draw, Loss];
    let good = compress_wdl(&data);
    assert_eq!(try_decompress_wdl(&good), Some(data.clone()));

    let mut wrong_len = good.clone();
    wrong_len.orig_len += 1;
    assert_eq!(try_decompress_wdl(&wrong_len), None);

    let mut short_stream = good.clone();
    short_stream.bit_len = 8 * short_stream.bitstream.len() + 1;
    assert_eq!(try_decompress_wdl(&short_stream), None);

    let mut bad_pair = good.clone();
    bad_pair.sym_pairs[0] = (7, 7);
    assert_eq!(try_decompress_wdl(&bad_pair), None);

    let too_many_codes = CompressedWdl {
        base_symbols: 7,
        sym_pairs: Vec::new(),
        code_lens: vec![1, 1, 1, 0, 0, 0, 0],
        bitstream: vec![0],
        bit_len: 1,
        orig_len: 1,
    };
    assert_eq!(try_decompress_wdl(&too_many_codes), None);

    let too_long_code = CompressedWdl {
        base_symbols: 7,
        sym_pairs: Vec::new(),
        code_lens: vec![33, 0, 0, 0, 0, 0, 0],
        bitstream: vec![0; 8],
        bit_len: 33,
        orig_len: 1,
    };
    assert_eq!(try_decompress_wdl(&too_long_code), None);

    let dangling = CompressedWdl {
        base_symbols: 7,
        sym_pairs: Vec::new(),
        code_lens: vec![2, 2, 0, 0, 0, 0, 0],
        bitstream: vec![0],
        bit_len: 3,
        orig_len: 1,
    };
    assert_eq!(try_decompress_wdl(&dangling), None);

    let no_branch = CompressedWdl {
        base_symbols: 7,
        sym_pairs: Vec::new(),
        code_lens: vec![2, 2, 0, 0, 0, 0, 0],
        bitstream: vec![0b1000_0000],
        bit_len: 2,
        orig_len: 1,
    };
    assert_eq!(try_decompress_wdl(&no_branch), None);
}

#[test]
fn illegal_runs_take_the_value_of_a_neighbour() {
    let rewritten = |values: &[u8]| {
        let mut seq = values.to_vec();
        rewrite_illegal_runs(&mut seq, 6);
        seq
    };
    // only one neighbour
    assert_eq!(rewritten(&[6, 6, 3, 3]), vec![3, 3, 3, 3]);
    assert_eq!(rewritten(&[5, 6]), vec![5, 5]);
    // both neighbours agree
    assert_eq!(rewritten(&[3, 6, 3]), vec![3, 3, 3]);
    // the neighbour with the longer run, the left one where both are as long
    assert_eq!(rewritten(&[3, 6, 6, 4, 4]), vec![3, 4, 4, 4, 4]);
    assert_eq!(rewritten(&[3, 3, 6, 4]), vec![3, 3, 3, 4]);
    assert_eq!(rewritten(&[3, 6, 4]), vec![3, 3, 4]);
    // a run that was rewritten counts for the next
    assert_eq!(rewritten(&[6, 3, 6, 4, 4]), vec![3, 3, 3, 4, 4]);
    // nothing but the marker: draws
    assert_eq!(rewritten(&[6, 6]), vec![4, 4]);
    assert_eq!(rewritten(&[]), Vec::<u8>::new());
    assert_eq!(rewritten(&[1, 2, 3]), vec![1, 2, 3]);
}
