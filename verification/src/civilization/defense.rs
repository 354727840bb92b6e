//! Defense and warfare metrics.
use vstd::prelude::*;

verus! {

/// Simplified structure type for defense calculation.
#[derive(Debug, Clone, Copy, PartialEq, Eq, Structural)]
pub enum StructureDefenseType {
    Wall,
    Shelter,
    Other,
}

} // verus!
