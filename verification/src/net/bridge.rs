//! Wire encodings of simulation values.
use crate::environment::terrain::TerrainType;
use vstd::prelude::*;

verus! {

/// The protobuf code of a terrain type.
pub open spec fn terrain_code(t: TerrainType) -> i32 {
    match t {
        TerrainType::Grassland => 0,
        TerrainType::Desert => 1,
        TerrainType::Water => 2,
        TerrainType::Forest => 3,
        TerrainType::Mountain => 4,
    }
}

/// Convert a terrain type to its integer representation for protobuf.
pub fn terrain_type_to_i32(t: TerrainType) -> (code: i32)
    ensures
        code == terrain_code(t),
{
    match t {
        TerrainType::Grassland => 0,
        TerrainType::Desert => 1,
        TerrainType::Water => 2,
        TerrainType::Forest => 3,
        TerrainType::Mountain => 4,
    }
}

/// Law: distinct terrain types have distinct codes, all in 0..5.
pub proof fn law_terrain_codes_distinct(a: TerrainType, b: TerrainType)
    ensures
        a != b ==> terrain_code(a) != terrain_code(b),
        0 <= terrain_code(a) < 5,
{
}

} // verus!
