use heisenbase::compression::compress_wdl;
use heisenbase::material_key::MaterialKey;
use heisenbase::table_builder::TableBuilder;
use heisenbase::wdl_file::{
    encode_wdl_file, read_wdl_file, read_wdl_file_for, write_wdl_file, WdlFileError,
};
use heisenbase::wdl_score_range::WdlScoreRange;
use heisenbase::wdl_table::WdlTable;

#[test]
fn read_wdl_file_rejects_bad_magic() {
    let mut bytes: Vec<u8> = Vec::new();
    bytes.extend_from_slice(b"BAD!");
    bytes.extend_from_slice(&[0u8; 16]);

    let result = read_wdl_file(&bytes);

    assert!(matches!(result, Err(WdlFileError::BadMagic)));
}

#[test]
fn exact_bytes_of_a_small_file() {
    let table = WdlTable {
        material: MaterialKey::from_string("KQvK").unwrap(),
        positions: vec![WdlScoreRange::Win, WdlScoreRange::Draw, WdlScoreRange::Draw, WdlScoreRange::Win],
    };
    let bytes = write_wdl_file(&table).unwrap();
    let mut expected: Vec<u8> = Vec::new();
    expected.extend_from_slice(b"HBWD");
    expected.push(1);
    expected.push(4);
    expected.extend_from_slice(b"KQvK");
    expected.extend_from_slice(&4u64.to_le_bytes());
    expected.extend_from_slice(&7u16.to_le_bytes());
    expected.extend_from_slice(&0u16.to_le_bytes());
    expected.extend_from_slice(&7u16.to_le_bytes());
    expected.extend_from_slice(&[0, 0, 0, 1, 1, 0, 0]);
    expected.extend_from_slice(&4u64.to_le_bytes());
    expected.extend_from_slice(&1u32.to_le_bytes());
    expected.push(0b0110_0000);
    assert_eq!(bytes, expected);
    assert_eq!(read_wdl_file(&bytes), Ok(table));
}

#[test]
fn file_round_trip_of_a_solved_table() {
    let mut tb = TableBuilder::new(MaterialKey::from_string("KvK").unwrap());
    tb.solve().unwrap();
    let table = tb.to_wdl_table().unwrap();
    let bytes = write_wdl_file(&table).unwrap();
    let read = read_wdl_file(&bytes).unwrap();
    assert_eq!(read.material.to_string(), "KvK");
    assert_eq!(read.material, table.material);
    assert_eq!(read.positions, table.positions);
    assert_eq!(
        read_wdl_file_for(&bytes, &MaterialKey::from_string("KvK").unwrap()),
        Ok(table)
    );
    assert_eq!(
        read_wdl_file_for(&bytes, &MaterialKey::from_string("KQvK").unwrap()),
        Err(WdlFileError::MismatchedMaterial)
    );
}

#[test]
fn files_with_pairs_round_trip() {
    let mut positions = Vec::new();
    for i in 0..2000usize {
        positions.push(match (i / 7) % 4 {
            0 => WdlScoreRange::Win,
            1 => WdlScoreRange::Draw,
            2 => WdlScoreRange::IllegalPosition,
            _ => WdlScoreRange::Loss,
        });
    }
    let table = WdlTable {
        material: MaterialKey::from_string("KRa2vKBdh7").unwrap(),
        positions,
    };
    let bytes = write_wdl_file(&table).unwrap();
    assert!(bytes.len() < 2000);
    assert_eq!(read_wdl_file(&bytes), Ok(table));
}

#[test]
fn broken_files_are_refused() {
    let table = WdlTable {
        material: MaterialKey::from_string("KQvK").unwrap(),
        positions: vec![WdlScoreRange::Win; 40],
    };
    let bytes = write_wdl_file(&table).unwrap();
    assert_eq!(read_wdl_file(&bytes[..3]), Err(WdlFileError::Truncated));
    assert_eq!(read_wdl_file(&bytes[..4]), Err(WdlFileError::Truncated));
    assert_eq!(read_wdl_file(&bytes[..12]), Err(WdlFileError::Truncated));
    for cut in 5..bytes.len() {
        assert_eq!(read_wdl_file(&bytes[..cut]), Err(WdlFileError::Truncated), "{cut}");
    }
    let mut version = bytes.clone();
    version[4] = 2;
    assert_eq!(read_wdl_file(&version), Err(WdlFileError::UnsupportedVersion));
    let mut key = bytes.clone();
    key[6] = b'X';
    assert_eq!(read_wdl_file(&key), Err(WdlFileError::InvalidMaterialKey));
    let mut count = bytes.clone();
    count[10] = 41;
    assert_eq!(read_wdl_file(&count), Err(WdlFileError::MalformedPayload));
    let mut trailing = bytes.clone();
    trailing.push(0);
    assert_eq!(read_wdl_file(&trailing), Ok(table));
}

#[test]
fn keys_too_long_for_the_header() {
    let data = compress_wdl(&[WdlScoreRange::Draw]);
    assert!(encode_wdl_file(&[b'K'; 255], &data).is_some());
    assert!(encode_wdl_file(&[b'K'; 256], &data).is_none());
}
