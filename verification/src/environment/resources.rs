//! Kinds of environmental resources.
use vstd::prelude::*;

verus! {

/// The kind of resource available in the environment.
#[derive(Debug, Clone, Copy, PartialEq, Eq, Structural)]
pub enum ResourceType {
    Food,
}

} // verus!
