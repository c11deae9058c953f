//! The signal path: analysis, detection, filtering, and what joins them.

use vstd::prelude::*;

pub mod agreement;
pub mod analysis;
pub mod attenuation;
pub mod bands;
pub mod blending;
pub mod comparison;
pub mod delay;
pub mod determinism;
pub mod detector;
pub mod filters;
pub mod idling;
pub mod levels;
pub mod monotony;
pub mod pacing;
pub mod reporting;
pub mod response;
pub mod resting;
pub mod rounding;
pub mod selectivity;
pub mod shaping;
pub mod stepping;
pub mod suppressor;
pub mod transparency;
pub mod tuning;

verus! {

/// Number of frequency bands.
pub const BANDS: usize = 64;

/// Number of user node slots. A slot that is not enabled counts as deleted and
/// carries no weight; it keeps its place so that host automation still finds it.
pub const MAX_NODES: usize = 8;

/// Center frequencies of the node slots as they come: `80`, `300`, `1000`,
/// `3500`, `8500`, `15000`, `4000` and `8000` Hz.
pub const NODE_DEFAULT_FREQS: [u32; 8] = [
    0x42a0_0000, 0x4396_0000, 0x447a_0000, 0x455a_c000,
    0x4604_d000, 0x466a_6000, 0x457a_0000, 0x45fa_0000,
];

} // verus!
