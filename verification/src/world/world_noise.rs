//! Integer parts of the world's noise: seeds of the noise layers and the
//! per-tile white noise hash.
use vstd::prelude::*;
use crate::world::world_lib::{numeric_seed_from_string, seed_of};

verus! {

/// Seeds of the noise layers of a world.
#[derive(Clone, Copy, Debug, PartialEq, Eq, Structural)]
pub struct NoiseSeeds {
    /// The world seed, also used by the white noise.
    pub seed: u64,
    /// Seed of the altitude layer: the low 32 bits of the world seed.
    pub altitude: i32,
    /// Seed of the temperature layer: the low 32 bits of the world seed plus 1337.
    pub temp: i32,
    /// Seed of the moisture layer, the same as the temperature layer's.
    pub moisture: i32,
}

/// Offset of the climate layers' seeds from the world seed.
pub const CLIMATE_SEED_OFFSET: u64 = 1337;

/// Derives the seeds of the noise layers from a world seed.
pub fn noise_seeds(seed: u64) -> (s: NoiseSeeds)
    requires
        seed + CLIMATE_SEED_OFFSET <= u64::MAX,
    ensures
        s.seed == seed,
        s.altitude == seed as i32,
        s.temp == (seed + CLIMATE_SEED_OFFSET) as u64 as i32,
        s.moisture == (seed + CLIMATE_SEED_OFFSET) as u64 as i32,
{
    let climate = seed + CLIMATE_SEED_OFFSET;
    NoiseSeeds { seed, altitude: seed as i32, temp: climate as i32, moisture: climate as i32 }
}

/// Derives the seeds of the noise layers of the world named `name`; `None`
/// when the climate seed would pass `u64::MAX`.
pub fn world_noise_seeds(name: &str) -> (s: Option<NoiseSeeds>)
    ensures
        seed_of(name@) + CLIMATE_SEED_OFFSET > u64::MAX ==> s is None,
        seed_of(name@) + CLIMATE_SEED_OFFSET <= u64::MAX ==> (s matches Some(n) && n.seed == seed_of(name@)
            && n.altitude == n.seed as i32 && n.temp == (n.seed + CLIMATE_SEED_OFFSET) as u64 as i32
            && n.moisture == n.temp),
{
    let seed = numeric_seed_from_string(name);
    if seed > u64::MAX - CLIMATE_SEED_OFFSET {
        None
    } else {
        Some(noise_seeds(seed))
    }
}

/// The 64-bit mix of a seed and a tile position: the coordinates are spread
/// by two odd constants and folded through the MurmurHash3 finaliser.
pub open spec fn white_noise_mix(seed: u64, x: i32, y: i32) -> u64 {
    let h0 = seed ^ (x as u64).wrapping_mul(0x9E3779B185EBCA87u64) ^ (y as u64).wrapping_mul(0xC2B2AE3D27D4EB4Fu64);
    let h1 = h0 ^ (h0 >> 33u64);
    let h2 = h1.wrapping_mul(0xFF51AFD7ED558CCDu64);
    let h3 = h2 ^ (h2 >> 33u64);
    let h4 = h3.wrapping_mul(0xC4CEB9FE1A85EC53u64);
    h4 ^ (h4 >> 33u64)
}

/// The white noise of a tile as a 24-bit number: the top 24 bits of the
/// mix. The noise value in `[0, 1)` is this number divided by `2^24`.
pub fn white_noise_bits(seed: u64, x: i32, y: i32) -> (v: u32)
    ensures
        v == (white_noise_mix(seed, x, y) >> 40u64) as u32,
        v < 0x100_0000,
{
    let mut h = seed ^ (x as u64).wrapping_mul(0x9E3779B185EBCA87u64) ^ (y as u64).wrapping_mul(0xC2B2AE3D27D4EB4Fu64);
    h = h ^ (h >> 33u64);
    h = h.wrapping_mul(0xFF51AFD7ED558CCDu64);
    h = h ^ (h >> 33u64);
    h = h.wrapping_mul(0xC4CEB9FE1A85EC53u64);
    h = h ^ (h >> 33u64);
    assert((h >> 40u64) < 0x100_0000u64) by (bit_vector);
    (h >> 40u64) as u32
}

} // verus!
