//! Acoustic profiles: one level per configured band plus scalar descriptors.
use vstd::prelude::*;

verus! {

/// One whole, for fractions held in parts per thousand.
pub const FULL: u64 = 1000;

/// Largest band level, in millidecibels, that a profile may hold (1000 dB).
pub const MAX_GAIN: i64 = 1_000_000;

/// Largest frequency, in millihertz, that a band may sit at (1 MHz).
pub const MAX_FREQUENCY: u64 = 1_000_000_000;

/// Largest number of bands in one profile.
pub const MAX_BANDS: usize = 100_000;

/// Level returned for a band that no spectrum bin falls into.
pub const NO_DATA_GAIN: i64 = -80_000;

/// One band of a profile: its fixed centre, a level (measured, or after
/// matching, a correction), its width and how much the level is trusted.
#[derive(Clone, Copy, Debug, PartialEq, Eq)]
pub struct FrequencyBand {
    /// Centre frequency in millihertz.
    pub frequency: u64,
    /// Level in millidecibels.
    pub gain_db: i64,
    /// Width in millihertz.
    pub bandwidth: u64,
    /// Confidence in parts per thousand, 0 to 1000.
    pub confidence: u64,
}

impl FrequencyBand {
    pub open spec fn valid(&self) -> bool {
        &&& 0 < self.frequency <= MAX_FREQUENCY
        &&& -MAX_GAIN <= self.gain_db <= MAX_GAIN
        &&& self.confidence <= FULL
    }
}

/// Banded levels of one recording plus its scalar descriptors.
#[derive(Clone, Debug)]
pub struct EQProfile {
    pub bands: Vec<FrequencyBand>,
    /// Loudness in millidecibels.
    pub overall_loudness: i64,
    /// Spread of the spectrum's levels in millidecibels, never negative.
    pub dynamic_range: i64,
    /// Spectral centroid in millihertz.
    pub spectral_centroid: u64,
    /// Spectral rolloff in millihertz.
    pub spectral_rolloff: u64,
}

impl EQProfile {
    pub open spec fn valid(&self) -> bool {
        &&& self.bands@.len() <= MAX_BANDS
        &&& forall|i: int| 0 <= i < self.bands@.len() ==> (#[trigger] self.bands@[i]).valid()
        &&& 0 <= self.dynamic_range <= 2 * MAX_GAIN
    }
}

/// The levels of a sequence of bands.
pub open spec fn gains_of(bands: Seq<FrequencyBand>) -> Seq<int> {
    Seq::new(bands.len(), |i: int| bands[i].gain_db as int)
}

/// The confidences of a sequence of bands.
pub open spec fn confidences_of(bands: Seq<FrequencyBand>) -> Seq<int> {
    Seq::new(bands.len(), |i: int| bands[i].confidence as int)
}

} // verus!
