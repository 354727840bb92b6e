//! Species identity of a genome.
use vstd::prelude::*;

verus! {

/// FNV offset basis that starts a species hash.
pub const SPECIES_HASH_BASIS: u64 = 0xcbf29ce484222325;

/// FNV prime of the species hash.
pub const SPECIES_HASH_PRIME: u64 = 0x100000001b3;

/// The species hash of a list of quantized traits: from the basis, for each
/// trait `hash * prime + trait`, modulo 2^64.
pub open spec fn species_hash(traits: Seq<u64>) -> u64
    decreases traits.len(),
{
    if traits.len() == 0 {
        SPECIES_HASH_BASIS
    } else {
        (((species_hash(traits.drop_last()) as nat * SPECIES_HASH_PRIME as nat) % 0x1_0000_0000_0000_0000nat
            + traits.last() as nat) % 0x1_0000_0000_0000_0000nat) as u64
    }
}

/// Species hash of the quantized key traits of a genome (max energy,
/// metabolism rate, max speed and size, each quantized to tenths, then the
/// max lifespan).
pub fn species_id_from_traits(traits: &[u64; 5]) -> (id: u64)
    ensures
        id == species_hash(traits@),
{
    let mut hash: u64 = SPECIES_HASH_BASIS;
    let mut i: usize = 0;
    while i < 5
        invariant
            i <= 5,
            traits@.len() == 5,
            hash == species_hash(traits@.take(i as int)),
        decreases 5 - i,
    {
        assert(traits@.take(i + 1).drop_last() =~= traits@.take(i as int));
        hash = hash.wrapping_mul(SPECIES_HASH_PRIME);
        hash = hash.wrapping_add(traits[i]);
        i = i + 1;
    }
    assert(traits@.take(5) =~= traits@);
    hash
}

} // verus!
