//! Endgame tablebase construction: material signatures, position indexing,
//! retrograde solving over win/draw/loss ranges, and the compressed table format.

pub mod bitboard;
pub mod combinatorics;
pub mod compression;
pub mod index_laws;
pub mod material_key;
pub mod position;
pub mod position_indexer;
pub mod rules;
pub mod score;
pub mod table_builder;
pub mod transform;
pub mod wdl_file;
pub mod wdl_file_laws;
pub mod wdl_score_range;
pub mod wdl_table;
