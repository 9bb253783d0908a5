//! Reduction of a spectrum to a profile: one level and confidence per
//! configured band, and the spread of the spectrum's levels.
use vstd::prelude::*;
use vstd::relations::{sorted_by, total_ordering};
use crate::analyzer::{bin_frequencies, bin_frequency, AnalysisConfig, AnalysisError, MAX_FFT_SIZE};
use crate::arith::{
    bounded, div_floor, ints, isqrt, lemma_bounded_weaken, lemma_mean_bounded, lemma_push_bounded,
    lemma_sum_take_step, sqrt_floor, sum, sum_values,
};
use crate::profile::{EQProfile, FrequencyBand, MAX_FREQUENCY, MAX_GAIN, NO_DATA_GAIN};

verus! {

/// Largest number of bins in a spectrum.
pub const MAX_BINS: usize = 1_000_000;

/// Two to the power 1/6, in millionths: half of a third of an octave.
pub const SIXTH_OCTAVE: u64 = 1_122_462;

/// An averaged magnitude spectrum: bin frequencies in millihertz and levels
/// in millidecibels, one of each per bin.
#[derive(Clone, Debug)]
pub struct FrequencySpectrum {
    pub frequencies: Vec<u64>,
    pub magnitudes: Vec<i64>,
    pub sample_rate: u32,
}

impl FrequencySpectrum {
    pub open spec fn valid(&self) -> bool {
        &&& self.frequencies@.len() == self.magnitudes@.len()
        &&& self.magnitudes@.len() <= MAX_BINS
        &&& bounded(ints(self.magnitudes@), MAX_GAIN as int)
    }

    /// The spectrum of a transform of length `fft_size` from the averaged
    /// level of each of its `fft_size / 2 + 1` bins.
    pub fn from_levels(magnitudes: Vec<i64>, sample_rate: u32, fft_size: usize) -> (s: FrequencySpectrum)
        requires
            1 <= fft_size <= MAX_FFT_SIZE,
            magnitudes@.len() == fft_size / 2 + 1,
        ensures
            s.frequencies@.len() == fft_size / 2 + 1,
            s.magnitudes@ == magnitudes@,
            s.sample_rate == sample_rate,
            forall|i: int| 0 <= i < s.frequencies@.len() ==>
                #[trigger] s.frequencies@[i] == bin_frequency(i, sample_rate as int, fft_size as int),
    {
        FrequencySpectrum { frequencies: bin_frequencies(sample_rate, fft_size), magnitudes, sample_rate }
    }
}

/// Lower edge of the third-octave band round `c`.
pub open spec fn band_lower(c: int) -> int {
    c * 1_000_000 / 1_122_462
}

/// Upper edge of the third-octave band round `c`.
pub open spec fn band_upper(c: int) -> int {
    c * 1_122_462 / 1_000_000
}

/// The levels of the first `k` bins whose frequency lies in the band round `c`.
pub open spec fn band_levels(freqs: Seq<u64>, mags: Seq<i64>, c: int, k: int) -> Seq<int>
    decreases k,
{
    if k <= 0 {
        Seq::empty()
    } else {
        let prev = band_levels(freqs, mags, c, k - 1);
        let f = freqs[k - 1] as int;
        if band_lower(c) <= f <= band_upper(c) {
            prev.push(mags[k - 1] as int)
        } else {
            prev
        }
    }
}

pub open spec fn squared_deviations(s: Seq<int>, m: int) -> Seq<int> {
    Seq::new(s.len(), |i: int| (s[i] - m) * (s[i] - m))
}

/// Sample standard deviation, rounded down (0 for fewer than two values).
pub open spec fn spread(s: Seq<int>) -> int {
    if s.len() < 2 {
        0
    } else {
        sqrt_floor(sum(squared_deviations(s, sum(s) / (s.len() as int))) / (s.len() - 1))
    }
}

/// The band round centre `c` measured on a spectrum: the mean level of
/// its bins, trusted by `1 / (1 + spread / 10 dB)`; a band without bins
/// reads -80 dB at confidence 0.
pub open spec fn band_of(freqs: Seq<u64>, mags: Seq<i64>, c: u64) -> FrequencyBand {
    let levels = band_levels(freqs, mags, c as int, freqs.len() as int);
    let bandwidth = (c * 23 / 100) as u64;
    if levels.len() == 0 {
        FrequencyBand { frequency: c, gain_db: NO_DATA_GAIN, bandwidth, confidence: 0 }
    } else {
        FrequencyBand {
            frequency: c,
            gain_db: (sum(levels) / (levels.len() as int)) as i64,
            bandwidth,
            confidence: (10_000_000int / (10_000 + spread(levels))) as u64,
        }
    }
}

/// Sum of squared deviations from `m`, with its bound.
fn sum_squared_deviations(v: &Vec<i64>, m: i64) -> (r: u64)
    requires
        v@.len() <= MAX_BINS,
        bounded(ints(v@), MAX_GAIN as int),
        -MAX_GAIN <= m <= MAX_GAIN,
    ensures
        r == sum(squared_deviations(ints(v@), m as int)),
        r <= v@.len() * 4_000_000_000_000,
{
    let ghost t = squared_deviations(ints(v@), m as int);
    let mut acc: u64 = 0;
    let mut i: usize = 0;
    while i < v.len()
        invariant
            t == squared_deviations(ints(v@), m as int),
            v@.len() <= MAX_BINS,
            bounded(ints(v@), MAX_GAIN as int),
            -MAX_GAIN <= m <= MAX_GAIN,
            i <= v@.len(),
            acc == sum(t.take(i as int)),
            acc <= i * 4_000_000_000_000,
        decreases v@.len() - i,
    {
        assert(ints(v@)[i as int] == v@[i as int]);
        let d: i64 = v[i] - m;
        assert(d * d <= 4_000_000_000_000) by (nonlinear_arith)
            requires -2_000_000 <= d <= 2_000_000;
        assert(d * d >= 0) by (nonlinear_arith);
        proof {
            lemma_sum_take_step(t, i as int);
        }
        let sq = (d * d) as u64;
        assert(acc + sq <= (i + 1) * 4_000_000_000_000) by (nonlinear_arith)
            requires acc <= i * 4_000_000_000_000, sq <= 4_000_000_000_000;
        acc = acc + sq;
        i = i + 1;
    }
    assert(t.take(i as int) =~= t);
    acc
}

/// Measures the band round `center` on a spectrum.
pub fn extract_band_info(spectrum: &FrequencySpectrum, center: u64) -> (b: FrequencyBand)
    requires
        spectrum.valid(),
        0 < center <= MAX_FREQUENCY,
    ensures
        b == band_of(spectrum.frequencies@, spectrum.magnitudes@, center),
        b.valid(),
{
    let ghost freqs = spectrum.frequencies@;
    let ghost mags = spectrum.magnitudes@;
    let lower = center * 1_000_000 / SIXTH_OCTAVE;
    let upper = center * SIXTH_OCTAVE / 1_000_000;
    let mut levels: Vec<i64> = Vec::new();
    let mut i: usize = 0;
    while i < spectrum.frequencies.len()
        invariant
            freqs == spectrum.frequencies@,
            mags == spectrum.magnitudes@,
            spectrum.valid(),
            lower == band_lower(center as int),
            upper == band_upper(center as int),
            i <= freqs.len(),
            ints(levels@) == band_levels(freqs, mags, center as int, i as int),
            levels@.len() <= i,
            bounded(ints(levels@), MAX_GAIN as int),
        decreases freqs.len() - i,
    {
        let f = spectrum.frequencies[i];
        if lower <= f && f <= upper {
            let x = spectrum.magnitudes[i];
            assert(ints(mags)[i as int] == x);
            let ghost l0 = levels@;
            levels.push(x);
            proof {
                lemma_push_bounded(l0, x, MAX_GAIN as int);
                assert(ints(levels@) =~= ints(l0).push(x as int));
            }
        }
        i = i + 1;
    }
    let ghost s = ints(levels@);
    let bandwidth = center * 23 / 100;
    let n = levels.len();
    if n == 0 {
        return FrequencyBand { frequency: center, gain_db: NO_DATA_GAIN, bandwidth, confidence: 0 };
    }
    proof {
        lemma_bounded_weaken(s, MAX_GAIN as int, 6_000_000);
        lemma_mean_bounded(s, MAX_GAIN as int);
    }
    let mean = div_floor(sum_values(&levels), n as i64);
    let mut sd: u64 = 0;
    if n >= 2 {
        let sq = sum_squared_deviations(&levels, mean);
        let var = sq / ((n - 1) as u64);
        proof {
            let a = sq as int;
            let d = n as int - 1;
            assert(var == a / d);
            vstd::arithmetic::div_mod::lemma_fundamental_div_mod(a, d);
            assert(var <= 8_000_000_000_000) by (nonlinear_arith)
                requires a == d * var + a % d, 0 <= a % d, a <= (d + 1) * 4_000_000_000_000, d >= 1, var >= 0;
        }
        sd = isqrt(var);
        assert(sd <= 3_000_000) by (nonlinear_arith)
            requires sd * sd <= var, var <= 8_000_000_000_000, sd >= 0;
    }
    assert(sd == spread(s));
    let confidence = 10_000_000 / (10_000 + sd);
    proof {
        vstd::arithmetic::div_mod::lemma_div_is_ordered_by_denominator(10_000_000, 10_000, 10_000 + sd as int);
    }
    FrequencyBand { frequency: center, gain_db: mean, bandwidth, confidence }
}

/// Scalar descriptors of a spectrum that the caller measured on its
/// linear power: loudness (millidecibels), centroid and rolloff
/// (millihertz).
#[derive(Clone, Copy, Debug, PartialEq, Eq)]
pub struct PowerDescriptors {
    pub overall_loudness: i64,
    pub spectral_centroid: u64,
    pub spectral_rolloff: u64,
}

/// Reduces a spectrum to a profile: one band per configured centre, in the
/// configured order. An empty band list is refused.
pub fn extract_eq_profile(
    spectrum: &FrequencySpectrum,
    config: &AnalysisConfig,
    power: &PowerDescriptors,
) -> (r: Result<EQProfile, AnalysisError>)
    requires
        spectrum.valid(),
        spectrum.magnitudes@.len() >= 1,
        config.frequency_bands@.len() <= crate::profile::MAX_BANDS,
        forall|i: int| 0 <= i < config.frequency_bands@.len() ==>
            0 < #[trigger] config.frequency_bands@[i] <= MAX_FREQUENCY,
    ensures
        r is Err <==> config.frequency_bands@.len() == 0,
        r matches Err(e) ==> e == AnalysisError::NoBands,
        r matches Ok(p) ==> {
            &&& p.bands@.len() == config.frequency_bands@.len()
            &&& forall|i: int| 0 <= i < p.bands@.len() ==>
                #[trigger] p.bands@[i] == band_of(spectrum.frequencies@, spectrum.magnitudes@,
                    config.frequency_bands@[i])
            &&& p.dynamic_range == dynamic_range_of(spectrum.magnitudes@)
            &&& p.overall_loudness == power.overall_loudness
            &&& p.spectral_centroid == power.spectral_centroid
            &&& p.spectral_rolloff == power.spectral_rolloff
            &&& p.valid()
        },
{
    if config.frequency_bands.len() == 0 {
        return Err(AnalysisError::NoBands);
    }
    let mut bands: Vec<FrequencyBand> = Vec::new();
    let mut i: usize = 0;
    while i < config.frequency_bands.len()
        invariant
            spectrum.valid(),
            forall|i: int| 0 <= i < config.frequency_bands@.len() ==>
                0 < #[trigger] config.frequency_bands@[i] <= MAX_FREQUENCY,
            i <= config.frequency_bands@.len(),
            bands@.len() == i,
            forall|j: int| 0 <= j < i ==>
                #[trigger] bands@[j] == band_of(spectrum.frequencies@, spectrum.magnitudes@,
                    config.frequency_bands@[j]),
            forall|j: int| 0 <= j < i ==> (#[trigger] bands@[j]).valid(),
        decreases config.frequency_bands@.len() - i,
    {
        let b = extract_band_info(spectrum, config.frequency_bands[i]);
        bands.push(b);
        i = i + 1;
    }
    let dynamic_range = calculate_dynamic_range(&spectrum.magnitudes);
    Ok(EQProfile {
        bands,
        overall_loudness: power.overall_loudness,
        dynamic_range,
        spectral_centroid: power.spectral_centroid,
        spectral_rolloff: power.spectral_rolloff,
    })
}

pub open spec fn level_order() -> spec_fn(i64, i64) -> bool {
    |a: i64, b: i64| a <= b
}

/// Levels in ascending order.
pub open spec fn ascending(m: Seq<i64>) -> Seq<i64> {
    m.sort_by(level_order())
}

/// Spread of a spectrum's levels: the 95th percentile less the 5th, each
/// taken at index `len * p / 100` of the ascending levels.
pub open spec fn dynamic_range_of(m: Seq<i64>) -> int {
    let s = ascending(m);
    s[(m.len() * 95 / 100) as int] as int - s[(m.len() * 5 / 100) as int] as int
}

proof fn lemma_level_order_total()
    ensures
        total_ordering(level_order()),
{
    let r = level_order();
    assert(vstd::relations::reflexive(r));
    assert(vstd::relations::antisymmetric(r));
    assert(vstd::relations::transitive(r));
    assert(vstd::relations::strongly_connected(r));
}

/// The levels in ascending order, by insertion.
fn sort_levels(v: &Vec<i64>) -> (r: Vec<i64>)
    ensures
        r@ == ascending(v@),
{
    broadcast use vstd::seq_lib::group_to_multiset_ensures;
    broadcast use vstd::multiset::group_multiset_axioms;
    let mut r: Vec<i64> = Vec::new();
    let mut i: usize = 0;
    while i < v.len()
        invariant
            i <= v@.len(),
            r@.to_multiset() == v@.take(i as int).to_multiset(),
            sorted_by(r@, level_order()),
        decreases v@.len() - i,
    {
        let x = v[i];
        let mut p: usize = 0;
        while p < r.len() && r[p] <= x
            invariant
                p <= r@.len(),
                forall|j: int| 0 <= j < p ==> r@[j] <= x,
            decreases r@.len() - p,
        {
            p = p + 1;
        }
        let ghost r0 = r@;
        r.insert(p, x);
        proof {
            assert(r@.remove(p as int) =~= r0);
            assert(r@[p as int] == x);
            assert(v@.take(i as int + 1) =~= v@.take(i as int).push(x));
            r@.to_multiset_ensures();
            v@.take(i as int).to_multiset_ensures();
            assert(r@.remove(p as int).to_multiset() == r@.to_multiset().remove(r@[p as int]));
            assert(r@.to_multiset().remove(x) =~= r0.to_multiset());
            assert(r@.contains(x));
            assert(r@.to_multiset().count(x) > 0);
            assert(r@.to_multiset() =~= r0.to_multiset().insert(x));
            assert forall|a: int, b: int| 0 <= a < b < r@.len() implies
                #[trigger] (level_order())(r@[a], r@[b]) by {
                if b < p {
                    assert((level_order())(r0[a], r0[b]));
                } else if b == p {
                    assert(r0[a] <= x);
                } else if a > p {
                    assert((level_order())(r0[a - 1], r0[b - 1]));
                } else if a == p {
                    assert(p < r0.len());
                    assert(!(r0[p as int] <= x));
                    if b - 1 > p {
                        assert((level_order())(r0[p as int], r0[b - 1]));
                    }
                } else {
                    assert((level_order())(r0[a], r0[b - 1]));
                }
            }
        }
        i = i + 1;
    }
    proof {
        assert(v@.take(i as int) =~= v@);
        v@.lemma_sort_by_ensures(level_order());
        lemma_level_order_total();
        vstd::seq_lib::lemma_sorted_unique(r@, ascending(v@), level_order());
    }
    r
}

/// The 95th percentile of a spectrum's levels less the 5th.
pub fn calculate_dynamic_range(magnitudes: &Vec<i64>) -> (r: i64)
    requires
        1 <= magnitudes@.len() <= MAX_BINS,
        bounded(ints(magnitudes@), MAX_GAIN as int),
    ensures
        r == dynamic_range_of(magnitudes@),
        0 <= r <= 2 * MAX_GAIN,
{
    broadcast use vstd::seq_lib::group_to_multiset_ensures;
    let sorted = sort_levels(magnitudes);
    let n = magnitudes.len();
    proof {
        magnitudes@.lemma_sort_by_ensures(level_order());
        assert(sorted@.to_multiset().len() == magnitudes@.to_multiset().len());
        assert(sorted@.len() == n);
        assert(n * 95 / 100 < n) by (nonlinear_arith) requires n >= 1;
        assert(n * 5 / 100 < n) by (nonlinear_arith) requires n >= 1;
    }
    let hi = sorted[n * 95 / 100];
    let lo = sorted[n * 5 / 100];
    proof {
        assert(sorted@.to_multiset().count(hi) > 0);
        assert(magnitudes@.contains(hi));
        assert(sorted@.to_multiset().count(lo) > 0);
        assert(magnitudes@.contains(lo));
        let k1 = choose|k: int| 0 <= k < magnitudes@.len() && magnitudes@[k] == hi;
        let k2 = choose|k: int| 0 <= k < magnitudes@.len() && magnitudes@[k] == lo;
        assert(ints(magnitudes@)[k1] == hi);
        assert(ints(magnitudes@)[k2] == lo);
        assert(n * 5 / 100 <= n * 95 / 100) by (nonlinear_arith) requires n >= 1;
        if n * 5 / 100 < n * 95 / 100 {
            assert((level_order())(sorted@[(n * 5 / 100) as int], sorted@[(n * 95 / 100) as int]));
        }
    }
    hi - lo
}

} // verus!
