//! Tonal-balance matching of two recordings: windowing and segmentation for
//! spectral analysis, per-band profile extraction, and the correction curve
//! that moves one profile towards another. All quantities are fixed point:
//! levels in millidecibels, frequencies in millihertz, fractions in parts
//! per thousand.
pub mod analyzer;
pub mod arith;
pub mod audio;
pub mod extractor;
pub mod profile;
pub mod matcher;
pub mod octave;
