//! Segmentation of a sample buffer for averaged short-time spectra, the
//! analysis window's cosine series and the frequencies of the spectrum bins.
use vstd::prelude::*;
use crate::arith::{div_floor, lemma_floor_div_bound};

verus! {

/// Smallest and largest transform length accepted.
pub const MIN_FFT_SIZE: usize = 16;
pub const MAX_FFT_SIZE: usize = 1_048_576;

/// Overlap of consecutive segments must stay below 900 thousandths.
pub const OVERLAP_LIMIT: u64 = 900;

/// The analysis windows, each a cosine series `sum_k (-1)^k a_k cos(2 pi k x)`.
#[derive(Clone, Copy, Debug, PartialEq, Eq)]
pub enum WindowType {
    Hann,
    Hamming,
    /// The default: lowest leakage of the four.
    BlackmanHarris,
    /// Flattest pass band, for amplitude accuracy.
    FlatTop,
}

/// Cosine-series coefficients `a_0, a_1, ...` of a window, in billionths.
pub open spec fn cosine_series(w: WindowType) -> Seq<i64> {
    match w {
        WindowType::Hann => seq![500_000_000, 500_000_000],
        WindowType::Hamming => seq![540_000_000, 460_000_000],
        WindowType::BlackmanHarris => seq![358_750_000, 488_290_000, 141_280_000, 11_680_000],
        WindowType::FlatTop => seq![215_578_950, 416_631_580, 277_263_158, 83_578_947, 6_947_368],
    }
}

/// One, in the billionths that window values are held in.
pub const UNIT: i64 = 1_000_000_000;

/// Sum of `(-1)^k a_k c_k` over the terms `k >= 1` of a series, where
/// `c[k - 1]` is `cos(2 pi k x)` in billionths; weighted by billionths twice.
pub open spec fn cosine_terms(a: Seq<i64>, c: Seq<i64>, k: int) -> int
    decreases k,
{
    if k <= 0 {
        0
    } else {
        let t = a[k] as int * c[k - 1] as int;
        cosine_terms(a, c, k - 1) + (if k % 2 == 1 { -t } else { t })
    }
}

/// The window's value, in billionths rounded down, at the point whose
/// cosines `cos(2 pi k x)` for `k = 1, 2, ...` are `c`, in billionths.
pub open spec fn window_value(w: WindowType, c: Seq<i64>) -> int {
    let a = cosine_series(w);
    (a[0] as int * UNIT + cosine_terms(a, c, a.len() - 1)) / (UNIT as int)
}

/// Every value of `c` is a cosine: within `[-1, 1]`.
pub open spec fn cosines(c: Seq<i64>) -> bool {
    forall|i: int| 0 <= i < c.len() ==> -UNIT <= #[trigger] c[i] <= UNIT
}

impl WindowType {
    pub fn default() -> (r: WindowType)
        ensures
            r == WindowType::BlackmanHarris,
    {
        WindowType::BlackmanHarris
    }

    /// The coefficients of the window's cosine series, in billionths.
    pub fn cosine_series(&self) -> (r: Vec<i64>)
        ensures
            r@ == cosine_series(*self),
    {
        let r = match self {
            WindowType::Hann => vec![500_000_000, 500_000_000],
            WindowType::Hamming => vec![540_000_000, 460_000_000],
            WindowType::BlackmanHarris => vec![358_750_000, 488_290_000, 141_280_000, 11_680_000],
            WindowType::FlatTop => vec![215_578_950, 416_631_580, 277_263_158, 83_578_947, 6_947_368],
        };
        assert(r@ =~= cosine_series(*self));
        r
    }

    /// The window's value at one point, from the cosines of the point's
    /// multiples (`c[k - 1]` is `cos(2 pi k x)`, as many as the series has
    /// terms past the first). On true cosines the value stays within the
    /// sum of the coefficients, and Hann and Hamming never go below zero.
    pub fn evaluate(&self, c: &Vec<i64>) -> (r: i64)
        requires
            c@.len() == cosine_series(*self).len() - 1,
            cosines(c@),
        ensures
            r == window_value(*self, c@),
            -UNIT <= r <= UNIT + 3,
            (*self is Hann || *self is Hamming) ==> 0 <= r,
    {
        let a = self.cosine_series();
        let mut acc: i64 = a[0] * UNIT;
        let mut bound: i64 = a[0];
        let mut k: usize = 1;
        while k < a.len()
            invariant
                a@ == cosine_series(*self),
                c@.len() == a@.len() - 1,
                cosines(c@),
                1 <= k <= a@.len(),
                acc == a@[0] * UNIT + cosine_terms(a@, c@, k - 1),
                bound == a@[0] + (if k >= 2 { a@[1] as int } else { 0 }) + (if k >= 3 { a@[2] as int } else { 0 })
                    + (if k >= 4 { a@[3] as int } else { 0 }) + (if k >= 5 { a@[4] as int } else { 0 }),
                -(bound * UNIT) + 2 * a@[0] * UNIT <= acc <= bound * UNIT,
            decreases a@.len() - k,
        {
            let ak = a[k];
            let ck = c[k - 1];
            assert(0 <= ak <= 600_000_000);
            assert(-(ak * UNIT) <= ak * ck <= ak * UNIT) by (nonlinear_arith)
                requires 0 <= ak, -UNIT <= ck <= UNIT;
            let t = ak * ck;
            if k % 2 == 1 {
                acc = acc - t;
            } else {
                acc = acc + t;
            }
            bound = bound + ak;
            k = k + 1;
        }
        proof {
            lemma_floor_div_bound(acc as int - a@[0] * UNIT + a@[0] * UNIT, 1_000_000_003, UNIT as int);
        }
        div_floor(acc, UNIT)
    }
}

/// Settings shared by the analyser and the profile extractor.
#[derive(Clone, Debug)]
pub struct AnalysisConfig {
    /// Transform length, a power of two.
    pub fft_size: usize,
    pub window_type: WindowType,
    /// Overlap of consecutive segments, thousandths.
    pub overlap: u64,
    /// Band centres in millihertz, in order.
    pub frequency_bands: Vec<u64>,
}

/// Why a buffer could not be analysed.
#[derive(Clone, Copy, Debug, PartialEq, Eq)]
pub enum AnalysisError {
    /// The transform length is not a power of two in the accepted range.
    UnsupportedFftSize { fft_size: usize },
    /// The overlap is 900 thousandths or more.
    InvalidOverlap { overlap: u64 },
    /// No band centre was configured.
    NoBands,
    /// The buffer is shorter than one segment.
    TooShort { samples: usize, fft_size: usize },
}

pub open spec fn is_power_of_two(n: nat) -> bool
    decreases n,
{
    if n <= 1 {
        n == 1
    } else {
        n % 2 == 0 && is_power_of_two(n / 2)
    }
}

/// How a buffer is cut into segments.
#[derive(Clone, Copy, Debug, PartialEq, Eq)]
pub struct SegmentPlan {
    /// Distance between the starts of consecutive segments.
    pub hop: usize,
    /// Number of whole segments averaged.
    pub num_windows: usize,
    /// Number of spectrum bins, `fft_size / 2 + 1`.
    pub bin_count: usize,
}

/// The error, if any, for a configuration and a buffer length.
pub open spec fn plan_error(samples: nat, fft_size: nat, overlap: nat, bands: nat) -> Option<AnalysisError> {
    if !(MIN_FFT_SIZE <= fft_size <= MAX_FFT_SIZE && is_power_of_two(fft_size)) {
        Some(AnalysisError::UnsupportedFftSize { fft_size: fft_size as usize })
    } else if overlap >= OVERLAP_LIMIT {
        Some(AnalysisError::InvalidOverlap { overlap: overlap as u64 })
    } else if bands == 0 {
        Some(AnalysisError::NoBands)
    } else if samples < fft_size {
        Some(AnalysisError::TooShort { samples: samples as usize, fft_size: fft_size as usize })
    } else {
        None
    }
}

pub open spec fn hop_of(fft_size: nat, overlap: nat) -> nat {
    fft_size * (1000 - overlap) as nat / 1000
}

impl AnalysisConfig {
    /// Transform length 8192, Blackman-Harris window, 75% overlap and ten
    /// octave bands from 31.5 Hz to 16 kHz.
    pub fn default() -> (r: AnalysisConfig)
        ensures
            r.fft_size == 8192,
            r.window_type == WindowType::BlackmanHarris,
            r.overlap == 750,
            r.frequency_bands@ == seq![
                31_500u64, 63_000, 125_000, 250_000, 500_000,
                1_000_000, 2_000_000, 4_000_000, 8_000_000, 16_000_000,
            ],
    {
        let bands = vec![
            31_500u64, 63_000, 125_000, 250_000, 500_000,
            1_000_000, 2_000_000, 4_000_000, 8_000_000, 16_000_000,
        ];
        AnalysisConfig { fft_size: 8192, window_type: WindowType::default(), overlap: 750, frequency_bands: bands }
    }

    /// Cuts a buffer of `samples` values into overlapping segments, or says
    /// why it cannot.
    pub fn segment_plan(&self, samples: usize) -> (r: Result<SegmentPlan, AnalysisError>)
        ensures
            r is Err <==> plan_error(samples as nat, self.fft_size as nat, self.overlap as nat,
                self.frequency_bands@.len()) is Some,
            r matches Err(e) ==> plan_error(samples as nat, self.fft_size as nat, self.overlap as nat,
                self.frequency_bands@.len()) == Some(e),
            r matches Ok(p) ==> {
                &&& p.hop == hop_of(self.fft_size as nat, self.overlap as nat)
                &&& p.hop >= 1
                &&& p.num_windows == (samples - self.fft_size) as nat / p.hop as nat + 1
                &&& p.bin_count == self.fft_size / 2 + 1
                &&& (p.num_windows - 1) * p.hop + self.fft_size <= samples
            },
    {
        let n = self.fft_size;
        if !(MIN_FFT_SIZE <= n && n <= MAX_FFT_SIZE && is_pow2(n)) {
            return Err(AnalysisError::UnsupportedFftSize { fft_size: n });
        }
        if self.overlap >= OVERLAP_LIMIT {
            return Err(AnalysisError::InvalidOverlap { overlap: self.overlap });
        }
        if self.frequency_bands.len() == 0 {
            return Err(AnalysisError::NoBands);
        }
        if samples < n {
            return Err(AnalysisError::TooShort { samples, fft_size: n });
        }
        let keep = (1000 - self.overlap) as usize;
        assert(n * keep <= 1_048_576_000) by (nonlinear_arith)
            requires n <= 1_048_576, keep <= 1000;
        let hop = n * keep / 1000;
        assert(hop >= 1) by (nonlinear_arith)
            requires hop == n * keep / 1000, n >= 16, keep >= 100;
        let num_windows = (samples - n) / hop + 1;
        proof {
            let d = samples as int - n as int;
            let q = d / hop as int;
            vstd::arithmetic::div_mod::lemma_fundamental_div_mod(d, hop as int);
            assert(q * hop <= d) by (nonlinear_arith)
                requires d == hop * q + d % hop as int, 0 <= d % hop as int;
        }
        Ok(SegmentPlan { hop, num_windows, bin_count: n / 2 + 1 })
    }
}

fn is_pow2(n: usize) -> (r: bool)
    ensures
        r == is_power_of_two(n as nat),
    decreases n,
{
    if n <= 1 {
        n == 1
    } else if n % 2 != 0 {
        false
    } else {
        is_pow2(n / 2)
    }
}

/// Frequency of bin `i`, millihertz: `i * sample_rate / fft_size`.
pub open spec fn bin_frequency(i: int, sample_rate: int, fft_size: int) -> int {
    i * sample_rate * 1000 / fft_size
}

/// Centre frequencies of the `fft_size / 2 + 1` bins of a spectrum, in
/// millihertz.
pub fn bin_frequencies(sample_rate: u32, fft_size: usize) -> (r: Vec<u64>)
    requires
        1 <= fft_size <= MAX_FFT_SIZE,
    ensures
        r@.len() == fft_size / 2 + 1,
        forall|i: int| 0 <= i < r@.len() ==>
            #[trigger] r@[i] == bin_frequency(i, sample_rate as int, fft_size as int),
{
    let count = fft_size / 2 + 1;
    let mut r: Vec<u64> = Vec::new();
    let mut i: usize = 0;
    while i < count
        invariant
            count == fft_size / 2 + 1,
            1 <= fft_size <= MAX_FFT_SIZE,
            i <= count,
            r@.len() == i,
            forall|j: int| 0 <= j < i ==>
                #[trigger] r@[j] == bin_frequency(j, sample_rate as int, fft_size as int),
        decreases count - i,
    {
        let x = i as u64;
        proof {
            assert(x * sample_rate <= 1_048_576 * 4_294_967_295) by (nonlinear_arith)
                requires x <= 1_048_576, sample_rate <= 4_294_967_295;
        }
        let f = x * (sample_rate as u64) * 1000 / (fft_size as u64);
        r.push(f);
        i = i + 1;
    }
    r
}

} // verus!
