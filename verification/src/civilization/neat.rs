//! NEAT (NeuroEvolution of Augmenting Topologies) genomes, by the size of their networks.
use vstd::prelude::*;

verus! {

/// A NEAT genome, described by the size of its network.
#[derive(Debug, Clone, Copy, PartialEq, Eq, Structural)]
pub struct NeatGenome {
    /// Number of input nodes.
    pub input_count: usize,
    /// Number of output nodes.
    pub output_count: usize,
    /// Number of connections.
    pub connection_count: usize,
    /// Global innovation number for tracking structural mutations.
    pub innovation_number: u64,
}

impl NeatGenome {
    /// A minimal genome: no connections and no innovations yet.
    pub fn new_minimal(input_count: usize, output_count: usize) -> (g: Self)
        ensures
            g == (NeatGenome { input_count, output_count, connection_count: 0, innovation_number: 0 }),
    {
        NeatGenome { input_count, output_count, connection_count: 0, innovation_number: 0 }
    }

    /// The network complexity: its number of connections.
    pub fn complexity(&self) -> (c: usize)
        ensures
            c == self.connection_count,
    {
        self.connection_count
    }
}

} // verus!
