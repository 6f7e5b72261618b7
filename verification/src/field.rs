//! The procedural scalar field that decides which tiles are solid.
//!
//! The field is a pure function of a seed and an integer sample
//! coordinate, so any two chunks that sample the same global tile
//! coordinate see the same value — the property behind seam-exact chunk
//! borders. The mixing steps are ordinary integer bit mixing; any other
//! deterministic field would serve, the streaming core only relies on
//! determinism.

use vstd::prelude::*;

verus! {

/// A seeded, deterministic scalar field over integer grid coordinates,
/// with values in `0 ..= 0xFFFF`.
#[derive(Clone, Copy, Debug)]
pub struct NoiseField {
    pub seed: u64,
}

/// The field value at `(x, y)` for the given seed.
pub open spec fn spec_field_value(seed: u64, x: i64, y: i64) -> u32 {
    let a = (x as u64).wrapping_mul(0x9E37_79B9_7F4A_7C15u64);
    let b = (y as u64).wrapping_mul(0xC2B2_AE3D_27D4_EB4Fu64);
    let h0 = seed ^ a ^ b;
    let h1 = (h0 ^ (h0 >> 30u64)).wrapping_mul(0xBF58_476D_1CE4_E5B9u64);
    let h2 = (h1 ^ (h1 >> 27u64)).wrapping_mul(0x94D0_49BB_1331_11EBu64);
    let h3 = h2 ^ (h2 >> 31u64);
    (h3 % 0x1_0000u64) as u32
}

/// A tile is solid (`1`) when the field value at its global tile
/// coordinate is at or above the threshold, else empty (`0`).
pub open spec fn spec_tile(seed: u64, threshold: u32, x: i64, y: i64) -> u32 {
    if spec_field_value(seed, x, y) >= threshold {
        1u32
    } else {
        0u32
    }
}

impl NoiseField {
    /// Samples the field at `(x, y)`.
    pub fn value_at(&self, x: i64, y: i64) -> (v: u32)
        ensures
            v == spec_field_value(self.seed, x, y),
            v < 0x1_0000,
    {
        let a: u64 = (x as u64).wrapping_mul(0x9E37_79B9_7F4A_7C15u64);
        let b: u64 = (y as u64).wrapping_mul(0xC2B2_AE3D_27D4_EB4Fu64);
        let h0: u64 = self.seed ^ a ^ b;
        let h1: u64 = (h0 ^ (h0 >> 30u64)).wrapping_mul(0xBF58_476D_1CE4_E5B9u64);
        let h2: u64 = (h1 ^ (h1 >> 27u64)).wrapping_mul(0x94D0_49BB_1331_11EBu64);
        let h3: u64 = h2 ^ (h2 >> 31u64);
        (h3 % 0x1_0000u64) as u32
    }

    /// The tile value at global tile coordinate `(x, y)`: solid at or
    /// above `threshold`, empty below.
    pub fn tile_at(&self, threshold: u32, x: i64, y: i64) -> (t: u32)
        ensures
            t == spec_tile(self.seed, threshold, x, y),
    {
        if self.value_at(x, y) >= threshold {
            1
        } else {
            0
        }
    }
}

} // verus!
