//! Deterministic random-number streams derived from one master seed.
use rand::{Rng, SeedableRng};
use rand_chacha::ChaCha8Rng;
use vstd::prelude::*;
use vstd::utf8::encode_utf8;

verus! {

/// The ChaCha generator with 8 rounds of `rand_chacha`, carried opaquely.
#[verifier::external_type_specification]
#[verifier::external_body]
pub struct ExChaCha8Rng(rand_chacha::ChaCha8Rng);

/// The generator that `ChaCha8Rng::seed_from_u64` builds from a seed.
pub uninterp spec fn chacha8_seeded(seed: u64) -> ChaCha8Rng;

/// A ChaCha8 generator seeded from a `u64`.
///
/// Trusted: calls `SeedableRng::seed_from_u64` of `rand_core` for
/// `ChaCha8Rng`, which expands the seed with a fixed PCG32 stream; the
/// generator is therefore a function of the seed alone.
#[verifier::external_body]
fn chacha8_from_seed(seed: u64) -> (rng: ChaCha8Rng)
    ensures
        rng == chacha8_seeded(seed),
{
    ChaCha8Rng::seed_from_u64(seed)
}

/// A position drawn from `0..n`.
///
/// Trusted: calls `Rng::gen_range` of `rand` with the range `0..n`, which
/// `rand` documents to return a value in the range and to panic only on an
/// empty one. What is drawn depends on the generator's state, which the call
/// advances; nothing more is claimed of either.
#[verifier::external_body]
pub(crate) fn gen_index(rng: &mut ChaCha8Rng, n: usize) -> (r: usize)
    requires
        n > 0,
    ensures
        r < n,
{
    rng.gen_range(0..n)
}

/// Multiplier that spreads tick numbers over the seed space.
pub const TICK_SEED_MULTIPLIER: u64 = 6_364_136_223_846_793_005;

/// `x * y` modulo 2^64.
pub open spec fn wrap_mul(x: u64, y: u64) -> u64 {
    ((x as nat * y as nat) % 0x1_0000_0000_0000_0000nat) as u64
}

/// `x + y` modulo 2^64.
pub open spec fn wrap_add(x: u64, y: u64) -> u64 {
    ((x as nat + y as nat) % 0x1_0000_0000_0000_0000nat) as u64
}

/// The seed of a named system: the master seed, then for each byte of the
/// name `hash * 31 + byte` modulo 2^64.
pub open spec fn derive_seed_spec(master_seed: u64, name: Seq<u8>) -> u64
    decreases name.len(),
{
    if name.len() == 0 {
        master_seed
    } else {
        wrap_add(wrap_mul(derive_seed_spec(master_seed, name.drop_last()), 31), name.last() as u64)
    }
}

/// The seed of a named system at a tick.
pub open spec fn tick_seed_spec(master_seed: u64, name: Seq<u8>, tick: u64) -> u64 {
    wrap_add(derive_seed_spec(master_seed, name), wrap_mul(tick, TICK_SEED_MULTIPLIER))
}

/// Deterministic RNG provider.
///
/// Each system gets its own reproducible stream; the same master seed
/// always produces the same streams.
#[derive(Debug, Clone, Copy, PartialEq, Eq, Structural)]
pub struct SimulationRng {
    master_seed: u64,
}

impl SimulationRng {
    /// The master seed of this provider.
    pub closed spec fn seed(&self) -> u64 {
        self.master_seed
    }

    /// A provider for the given master seed.
    pub fn new(master_seed: u64) -> (r: Self)
        ensures
            r.seed() == master_seed,
    {
        SimulationRng { master_seed }
    }

    /// A deterministic RNG for a named system.
    pub fn system_rng(&self, system_name: &str) -> (rng: ChaCha8Rng)
        ensures
            rng == chacha8_seeded(derive_seed_spec(self.seed(), encode_utf8(system_name@))),
    {
        let system_seed = self.derive_seed(system_name);
        chacha8_from_seed(system_seed)
    }

    /// A deterministic RNG for a system at a specific tick.
    pub fn tick_rng(&self, system_name: &str, tick: u64) -> (rng: ChaCha8Rng)
        ensures
            rng == chacha8_seeded(tick_seed_spec(self.seed(), encode_utf8(system_name@), tick)),
    {
        let base_seed = self.derive_seed(system_name);
        let tick_seed = base_seed.wrapping_add(tick.wrapping_mul(TICK_SEED_MULTIPLIER));
        chacha8_from_seed(tick_seed)
    }

    /// The master seed.
    pub fn master_seed(&self) -> (s: u64)
        ensures
            s == self.seed(),
    {
        self.master_seed
    }

    /// The seed of a named system: the name's UTF-8 bytes folded into the
    /// master seed with `hash * 31 + byte`, wrapping.
    pub fn derive_seed(&self, system_name: &str) -> (s: u64)
        ensures
            s == derive_seed_spec(self.seed(), encode_utf8(system_name@)),
    {
        let bytes = system_name.as_bytes();
        let mut hash: u64 = self.master_seed;
        let mut i: usize = 0;
        while i < bytes.len()
            invariant
                i <= bytes@.len(),
                bytes@ == encode_utf8(system_name@),
                hash == derive_seed_spec(self.master_seed, bytes@.take(i as int)),
            decreases bytes@.len() - i,
        {
            assert(bytes@.take(i + 1).drop_last() =~= bytes@.take(i as int));
            hash = hash.wrapping_mul(31).wrapping_add(bytes[i] as u64);
            i = i + 1;
        }
        assert(bytes@.take(i as int) =~= bytes@);
        hash
    }
}

/// Law: two providers with the same master seed hand every system, at every
/// tick, the same generator.
pub proof fn law_same_seed_same_streams(a: SimulationRng, b: SimulationRng, name: Seq<u8>, tick: u64)
    requires
        a.seed() == b.seed(),
    ensures
        chacha8_seeded(derive_seed_spec(a.seed(), name)) == chacha8_seeded(
            derive_seed_spec(b.seed(), name),
        ),
        chacha8_seeded(tick_seed_spec(a.seed(), name, tick)) == chacha8_seeded(
            tick_seed_spec(b.seed(), name, tick),
        ),
{
}

/// Law: at tick 0 a system's tick stream is its plain stream.
pub proof fn law_tick_zero_is_system_stream(master_seed: u64, name: Seq<u8>)
    ensures
        tick_seed_spec(master_seed, name, 0) == derive_seed_spec(master_seed, name),
{
    assert(wrap_mul(0, TICK_SEED_MULTIPLIER) == 0);
    assert(derive_seed_spec(master_seed, name) < 0x1_0000_0000_0000_0000nat);
}

} // verus!
