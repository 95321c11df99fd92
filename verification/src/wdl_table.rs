//! A finished table: a material and the value of each of its indices.

use crate::material_key::MaterialKey;
use crate::wdl_score_range::WdlScoreRange;
use vstd::prelude::*;

verus! {

/// The win/draw/loss values of all positions of one material, by index.
#[derive(Debug, Clone, PartialEq, Eq)]
pub struct WdlTable {
    pub material: MaterialKey,
    pub positions: Vec<WdlScoreRange>,
}

} // verus!
