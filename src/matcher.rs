//! The correction curve that moves an input profile towards a reference.
use vstd::prelude::*;
use crate::arith::{
    bounded, div_floor, div_trunc, div_trunc_exec, ints, isqrt, lemma_bounded_weaken,
    lemma_floor_div_bound, lemma_trunc_div_bound, lemma_trunc_div_neg,
    lemma_mean_bounded, lemma_push_bounded, nats, sqrt_floor, sum, sum_values, MAX_TERM,
};
use crate::octave::{octave_span_of, octave_span_within, STEPS_PER_OCTAVE};
use crate::profile::{
    confidences_of, gains_of, EQProfile, FrequencyBand, FULL, MAX_BANDS, MAX_FREQUENCY, MAX_GAIN,
};

verus! {

/// Bound on every correction value while the pipeline runs.
pub const MAX_CORRECTION_SPAN: i64 = MAX_TERM;

/// Settings of the matching pipeline.
#[derive(Clone, Copy, Debug, PartialEq, Eq)]
pub struct MatchConfig {
    /// Share of the correction applied, parts per thousand.
    pub intensity: u64,
    /// Ceiling on each band's correction, millidecibels.
    pub max_correction: i64,
    /// Blend towards the neighbour-smoothed curve, parts per thousand.
    pub smoothing_factor: u64,
    pub use_psychoacoustic: bool,
    pub preserve_dynamics: bool,
}

impl MatchConfig {
    pub open spec fn valid(&self) -> bool {
        &&& self.intensity <= FULL
        &&& 0 <= self.max_correction <= MAX_GAIN
        &&& self.smoothing_factor <= FULL
    }

    /// Intensity 0.7, at most 6 dB per band, smoothing 0.5, both options on.
    pub fn default() -> (r: MatchConfig)
        ensures
            r.valid(),
            r == (MatchConfig {
                intensity: 700,
                max_correction: 6000,
                smoothing_factor: 500,
                use_psychoacoustic: true,
                preserve_dynamics: true,
            }),
    {
        MatchConfig {
            intensity: 700,
            max_correction: 6000,
            smoothing_factor: 500,
            use_psychoacoustic: true,
            preserve_dynamics: true,
        }
    }
}

/// An advisory note raised while matching.
#[derive(Clone, Copy, Debug, PartialEq, Eq)]
pub enum MatchWarning {
    /// A band's correction was clamped (levels in millidecibels).
    Limited { frequency: u64, original: i64, limited: i64 },
    /// Two neighbouring bands differ by more than 6 dB per octave; `gain_step`
    /// is the level difference and `octave_span` their distance in 4096ths
    /// of an octave.
    SteepSlope { lower_frequency: u64, upper_frequency: u64, gain_step: i64, octave_span: u64 },
    /// The corrections add up to more than 30 dB in absolute value.
    HighTotalCorrection { total: i64 },
}

/// Why two profiles could not be matched.
#[derive(Clone, Copy, Debug, PartialEq, Eq)]
pub enum MatchError {
    BandCountMismatch { reference: usize, input: usize },
    /// Both profiles have no bands.
    NoBands,
}

/// Result of matching: the correction profile, both mean-normalised level
/// curves, a quality score in parts per thousand and the warnings raised.
#[derive(Clone, Debug)]
pub struct MatchResult {
    pub correction_profile: EQProfile,
    pub reference_normalized: Vec<i64>,
    pub input_normalized: Vec<i64>,
    pub quality_score: u64,
    pub warnings: Vec<MatchWarning>,
}

// ---- the pipeline, stage by stage, over mathematical integers ----

/// Mean rounded down; 0 for an empty sequence.
pub open spec fn mean(s: Seq<int>) -> int {
    if s.len() == 0 {
        0
    } else {
        sum(s) / (s.len() as int)
    }
}

/// Each value minus the sequence's mean.
pub open spec fn normalized(s: Seq<int>) -> Seq<int> {
    Seq::new(s.len(), |i: int| s[i] - mean(s))
}

/// `x` times the fraction `f` (parts per thousand), rounded towards zero.
pub open spec fn scale(x: int, f: int) -> int {
    div_trunc(x * f, 1000)
}

/// Every value of `s` times the fraction `f`.
pub open spec fn scaled(s: Seq<int>, f: int) -> Seq<int> {
    Seq::new(s.len(), |i: int| scale(s[i], f))
}

/// Positional ear-sensitivity weights for the ten octave bands from 31.5 Hz
/// to 16 kHz, parts per thousand; bands past the tenth are left unweighted.
pub open spec fn psychoacoustic_weight(i: int) -> int {
    if i == 0 { 600 }
    else if i == 1 { 700 }
    else if i == 2 { 850 }
    else if i == 3 { 950 }
    else if i == 4 { 1100 }
    else if i == 5 { 1300 }
    else if i == 6 { 1350 }
    else if i == 7 { 1250 }
    else if i == 8 { 1000 }
    else if i == 9 { 700 }
    else { 1000 }
}

pub open spec fn psychoacoustic_weighted(s: Seq<int>) -> Seq<int> {
    Seq::new(s.len(), |i: int| scale(s[i], psychoacoustic_weight(i)))
}

/// Each value times the square root of its confidence.
pub open spec fn confidence_weighted(s: Seq<int>, c: Seq<int>) -> Seq<int> {
    Seq::new(s.len(), |i: int| scale(s[i], sqrt_floor(c[i] * 1000)))
}

/// Blend weight of smoothing pass `pass`: the factor times 0.7 per pass.
pub open spec fn pass_weight(factor: int, pass: int) -> int {
    if pass == 0 {
        factor
    } else if pass == 1 {
        factor * 7 / 10
    } else {
        factor * 49 / 100
    }
}

/// One smoothing pass: interior values blended at weight `w` with the
/// 3-point average 1/4, 1/2, 1/4; the two edges kept.
pub open spec fn smoothing_pass(s: Seq<int>, w: int) -> Seq<int> {
    Seq::new(
        s.len(),
        |i: int|
            if 0 < i < s.len() - 1 {
                div_trunc(s[i] * (1000 - w) * 4 + (s[i - 1] + 2 * s[i] + s[i + 1]) * w, 4000)
            } else {
                s[i]
            },
    )
}

/// Three passes, each over the unsmoothed curve, so the last one stands.
pub open spec fn smoothed(s: Seq<int>, factor: int) -> Seq<int> {
    if factor == 0 || s.len() < 3 {
        s
    } else {
        smoothing_pass(s, pass_weight(factor, 2))
    }
}

pub open spec fn clamp(x: int, m: int) -> int {
    if x < -m { -m } else if x > m { m } else { x }
}

pub open spec fn limited(s: Seq<int>, m: int) -> Seq<int> {
    Seq::new(s.len(), |i: int| clamp(s[i], m))
}

pub open spec fn abs(x: int) -> int {
    if x < 0 { -x } else { x }
}

/// Factor, parts per thousand, that keeps corrections from compressing the
/// input's dynamic range by more than 30%.
pub open spec fn preservation_factor(ref_dr: int, inp_dr: int) -> int {
    if ref_dr < inp_dr {
        let loss = 1000 - ref_dr * 1000 / inp_dr;
        1000 - (if loss < 300 { loss } else { 300 })
    } else {
        1000
    }
}

/// Mean of the two profiles' confidences per band, rounded down.
pub open spec fn band_confidences(r: Seq<FrequencyBand>, n: Seq<FrequencyBand>) -> Seq<int> {
    Seq::new(r.len(), |i: int| (r[i].confidence as int + n[i].confidence as int) / 2)
}

/// Raw differences of the normalised curves, after the optional weighting
/// by ear sensitivity.
pub open spec fn weighted_differences(reference: EQProfile, input: EQProfile, cfg: MatchConfig) -> Seq<int> {
    let rn = normalized(gains_of(reference.bands@));
    let inn = normalized(gains_of(input.bands@));
    let d = Seq::new(rn.len(), |i: int| rn[i] - inn[i]);
    if cfg.use_psychoacoustic { psychoacoustic_weighted(d) } else { d }
}

/// The corrections after scaling by intensity, before limiting.
pub open spec fn unlimited_corrections(reference: EQProfile, input: EQProfile, cfg: MatchConfig) -> Seq<int> {
    let c = confidence_weighted(
        weighted_differences(reference, input, cfg),
        band_confidences(reference.bands@, input.bands@),
    );
    scaled(smoothed(c, cfg.smoothing_factor as int), cfg.intensity as int)
}

/// The corrections after limiting.
pub open spec fn limited_corrections(reference: EQProfile, input: EQProfile, cfg: MatchConfig) -> Seq<int> {
    limited(unlimited_corrections(reference, input, cfg), cfg.max_correction as int)
}

/// The final corrections.
pub open spec fn corrections(reference: EQProfile, input: EQProfile, cfg: MatchConfig) -> Seq<int> {
    let l = limited_corrections(reference, input, cfg);
    if cfg.preserve_dynamics {
        scaled(l, preservation_factor(reference.dynamic_range as int, input.dynamic_range as int))
    } else {
        l
    }
}

/// Going up from `f0` to `f1`, `s` 4096ths of an octave apart, the level
/// changes from `a` to `b` by more than 6 dB per octave.
pub open spec fn is_steep(a: int, b: int, f0: int, f1: int, s: int) -> bool {
    f0 <= f1 && abs(b - a) * 4096 > 6000 * s
}

/// Number of neighbouring pairs among `n` bands.
pub open spec fn pair_count(n: int) -> int {
    if n == 0 { 0 } else { n - 1 }
}

/// `spans[i]` measures the distance between bands `i` and `i + 1` where the
/// second lies above the first.
pub open spec fn spans_fit(bands: Seq<FrequencyBand>, spans: Seq<int>) -> bool {
    &&& spans.len() == pair_count(bands.len() as int)
    &&& forall|i: int| 0 <= i < spans.len() && bands[i].frequency <= bands[i + 1].frequency
        ==> octave_span_within(bands[i].frequency as int, bands[i + 1].frequency as int, #[trigger] spans[i])
}

pub open spec fn abs_values(s: Seq<int>) -> Seq<int> {
    Seq::new(s.len(), |i: int| abs(s[i]))
}

/// Warnings for the clamps among the first `k` bands that moved a value by
/// more than 0.1 dB.
pub open spec fn limit_warnings(bands: Seq<FrequencyBand>, t: Seq<int>, m: int, k: int) -> Seq<MatchWarning>
    decreases k,
{
    if k <= 0 {
        Seq::empty()
    } else {
        let prev = limit_warnings(bands, t, m, k - 1);
        let x = t[k - 1];
        if abs(x - clamp(x, m)) > 100 {
            prev.push(MatchWarning::Limited {
                frequency: bands[k - 1].frequency,
                original: x as i64,
                limited: clamp(x, m) as i64,
            })
        } else {
            prev
        }
    }
}

/// Warnings for the steep pairs among the first `k` neighbouring pairs.
pub open spec fn slope_warnings(bands: Seq<FrequencyBand>, l: Seq<int>, spans: Seq<int>, k: int) -> Seq<MatchWarning>
    decreases k,
{
    if k <= 0 {
        Seq::empty()
    } else {
        let prev = slope_warnings(bands, l, spans, k - 1);
        let f0 = bands[k - 1].frequency as int;
        let f1 = bands[k].frequency as int;
        if is_steep(l[k - 1], l[k], f0, f1, spans[k - 1]) {
            prev.push(MatchWarning::SteepSlope {
                lower_frequency: f0 as u64,
                upper_frequency: f1 as u64,
                gain_step: abs(l[k] - l[k - 1]) as i64,
                octave_span: spans[k - 1] as u64,
            })
        } else {
            prev
        }
    }
}

/// The warning on a total correction above 30 dB, if it is due.
pub open spec fn total_warning(l: Seq<int>) -> Seq<MatchWarning> {
    let total = sum(abs_values(l));
    if total > 30_000 {
        seq![MatchWarning::HighTotalCorrection { total: total as i64 }]
    } else {
        Seq::empty()
    }
}

/// All warnings of a match, in the order they are raised.
pub open spec fn match_warnings(
    reference: EQProfile,
    input: EQProfile,
    cfg: MatchConfig,
    spans: Seq<int>,
) -> Seq<MatchWarning> {
    let bands = reference.bands@;
    let t = unlimited_corrections(reference, input, cfg);
    let l = limited_corrections(reference, input, cfg);
    let pairs = if bands.len() == 0 { 0 } else { bands.len() - 1 };
    limit_warnings(bands, t, cfg.max_correction as int, bands.len() as int)
        + slope_warnings(bands, l, spans, pairs)
        + total_warning(l)
}

/// Neighbouring pairs among the first `k + 1` bands whose levels change by
/// more than 6 dB per octave.
pub open spec fn steep_steps(bands: Seq<FrequencyBand>, g: Seq<int>, spans: Seq<int>, k: int) -> int
    decreases k,
{
    if k <= 0 {
        0
    } else {
        steep_steps(bands, g, spans, k - 1) + (if is_steep(
            g[k - 1],
            g[k],
            bands[k - 1].frequency as int,
            bands[k].frequency as int,
            spans[k - 1],
        ) { 1int } else { 0int })
    }
}

/// Quality of a correction curve in parts per thousand: 1 less a penalty
/// of a tenth of the mean absolute correction in dB (at most 0.4), less
/// 0.05 per neighbouring pair steeper than 6 dB per octave, times
/// 0.7 + 0.3 * mean confidence, clamped to `[0, 1]`.
pub open spec fn quality(bands: Seq<FrequencyBand>, g: Seq<int>, c: Seq<int>, spans: Seq<int>) -> int {
    let penalty = mean(abs_values(g)) / 10;
    let penalty = if penalty < 400 { penalty } else { 400 };
    let steps = if g.len() == 0 { 0 } else { steep_steps(bands, g, spans, g.len() - 1) };
    let raw = (1000 - penalty - 50 * steps) * (7000 + 3 * mean(c)) / 10000;
    if raw < 0 { 0 } else if raw > 1000 { 1000 } else { raw }
}

// ---- executable stages ----

/// `x` times `f` thousandths, rounded towards zero, with its bound.
fn scale_by(x: i64, f: i64, b: Ghost<int>, c: Ghost<int>) -> (r: i64)
    requires
        0 <= b@ <= MAX_CORRECTION_SPAN,
        -b@ <= x <= b@,
        0 <= f <= 1350,
        0 <= c@,
        b@ * f <= c@ * 1000,
    ensures
        r == scale(x as int, f as int),
        -c@ <= r <= c@,
{
    proof {
        assert(-(b@ * f) <= x * f <= b@ * f) by (nonlinear_arith)
            requires -b@ <= x <= b@, 0 <= f;
        assert(b@ * f <= 6_000_000 * 1350) by (nonlinear_arith)
            requires 0 <= b@ <= 6_000_000, 0 <= f <= 1350;
        lemma_trunc_div_bound(x * f, c@, 1000);
    }
    div_trunc_exec(x * f, 1000)
}

fn gains(bands: &Vec<FrequencyBand>) -> (r: Vec<i64>)
    ensures
        ints(r@) == gains_of(bands@),
        r@.len() == bands@.len(),
{
    let mut r: Vec<i64> = Vec::new();
    let mut i: usize = 0;
    while i < bands.len()
        invariant
            i <= bands@.len(),
            r@.len() == i,
            forall|j: int| 0 <= j < i ==> r@[j] == bands@[j].gain_db,
        decreases bands@.len() - i,
    {
        r.push(bands[i].gain_db);
        i = i + 1;
    }
    assert(ints(r@) =~= gains_of(bands@));
    r
}

/// Each value minus the mean of all of them.
fn normalize(v: &Vec<i64>) -> (r: Vec<i64>)
    requires
        v@.len() <= MAX_BANDS,
        bounded(ints(v@), MAX_GAIN as int),
    ensures
        ints(r@) == normalized(ints(v@)),
        r@.len() == v@.len(),
        bounded(ints(r@), 2 * MAX_GAIN),
{
    let ghost s = ints(v@);
    let n = v.len();
    let mut m: i64 = 0;
    if n > 0 {
        proof {
            lemma_bounded_weaken(s, MAX_GAIN as int, MAX_CORRECTION_SPAN as int);
            lemma_mean_bounded(s, MAX_GAIN as int);
        }
        let total = sum_values(v);
        m = div_floor(total, n as i64);
    }
    assert(m == mean(s));
    let mut r: Vec<i64> = Vec::new();
    let mut i: usize = 0;
    while i < n
        invariant
            n == v@.len(),
            s == ints(v@),
            bounded(s, MAX_GAIN as int),
            m == mean(s),
            -MAX_GAIN <= m <= MAX_GAIN,
            i <= n,
            r@.len() == i,
            forall|j: int| 0 <= j < i ==> r@[j] == s[j] - m,
        decreases n - i,
    {
        assert(-MAX_GAIN <= s[i as int] <= MAX_GAIN);
        r.push(v[i] - m);
        i = i + 1;
    }
    assert(ints(r@) =~= normalized(s));
    r
}

/// Differences of two normalised curves of equal length.
fn differences(a: &Vec<i64>, b: &Vec<i64>) -> (r: Vec<i64>)
    requires
        a@.len() == b@.len(),
        bounded(ints(a@), 2 * MAX_GAIN),
        bounded(ints(b@), 2 * MAX_GAIN),
    ensures
        ints(r@) == Seq::new(ints(a@).len(), |i: int| ints(a@)[i] - ints(b@)[i]),
        r@.len() == a@.len(),
        bounded(ints(r@), 4 * MAX_GAIN),
{
    let mut r: Vec<i64> = Vec::new();
    let mut i: usize = 0;
    while i < a.len()
        invariant
            a@.len() == b@.len(),
            bounded(ints(a@), 2 * MAX_GAIN),
            bounded(ints(b@), 2 * MAX_GAIN),
            i <= a@.len(),
            r@.len() == i,
            forall|j: int| 0 <= j < i ==> r@[j] == a@[j] - b@[j],
            bounded(ints(r@), 4 * MAX_GAIN),
        decreases a@.len() - i,
    {
        assert(ints(a@)[i as int] == a@[i as int] && ints(b@)[i as int] == b@[i as int]);
        let ghost r0 = r@;
        r.push(a[i] - b[i]);
        proof { lemma_push_bounded(r0, r@[i as int], 4 * MAX_GAIN); }
        i = i + 1;
    }
    assert(ints(r@) =~= Seq::new(ints(a@).len(), |i: int| ints(a@)[i] - ints(b@)[i]));
    r
}

fn psychoacoustic_weight_at(i: usize) -> (w: i64)
    ensures
        w == psychoacoustic_weight(i as int),
        600 <= w <= 1350,
{
    if i == 0 { 600 }
    else if i == 1 { 700 }
    else if i == 2 { 850 }
    else if i == 3 { 950 }
    else if i == 4 { 1100 }
    else if i == 5 { 1300 }
    else if i == 6 { 1350 }
    else if i == 7 { 1250 }
    else if i == 8 { 1000 }
    else if i == 9 { 700 }
    else { 1000 }
}

fn apply_psychoacoustic_weighting(v: &Vec<i64>) -> (r: Vec<i64>)
    requires
        bounded(ints(v@), 4 * MAX_GAIN),
    ensures
        ints(r@) == psychoacoustic_weighted(ints(v@)),
        r@.len() == v@.len(),
        bounded(ints(r@), MAX_CORRECTION_SPAN as int),
{
    let mut r: Vec<i64> = Vec::new();
    let mut i: usize = 0;
    while i < v.len()
        invariant
            bounded(ints(v@), 4 * MAX_GAIN),
            i <= v@.len(),
            r@.len() == i,
            forall|j: int| 0 <= j < i ==> r@[j] == scale(v@[j] as int, psychoacoustic_weight(j)),
            bounded(ints(r@), MAX_CORRECTION_SPAN as int),
        decreases v@.len() - i,
    {
        assert(ints(v@)[i as int] == v@[i as int]);
        let w = psychoacoustic_weight_at(i);
        let x = scale_by(v[i], w, Ghost(4 * MAX_GAIN as int), Ghost(MAX_CORRECTION_SPAN as int));
        let ghost r0 = r@;
        r.push(x);
        proof { lemma_push_bounded(r0, x, MAX_CORRECTION_SPAN as int); }
        i = i + 1;
    }
    assert(ints(r@) =~= psychoacoustic_weighted(ints(v@)));
    r
}

/// Per band, the mean of the two profiles' confidences.
fn mean_confidences(a: &Vec<FrequencyBand>, b: &Vec<FrequencyBand>) -> (r: Vec<u64>)
    requires
        a@.len() == b@.len(),
        forall|i: int| 0 <= i < a@.len() ==> (#[trigger] a@[i]).valid(),
        forall|i: int| 0 <= i < b@.len() ==> (#[trigger] b@[i]).valid(),
    ensures
        nats(r@) == band_confidences(a@, b@),
        r@.len() == a@.len(),
        forall|i: int| 0 <= i < r@.len() ==> r@[i] <= FULL,
{
    let mut r: Vec<u64> = Vec::new();
    let mut i: usize = 0;
    while i < a.len()
        invariant
            a@.len() == b@.len(),
            forall|i: int| 0 <= i < a@.len() ==> (#[trigger] a@[i]).valid(),
            forall|i: int| 0 <= i < b@.len() ==> (#[trigger] b@[i]).valid(),
            i <= a@.len(),
            r@.len() == i,
            forall|j: int| 0 <= j < i ==> r@[j] == (a@[j].confidence as int + b@[j].confidence as int) / 2,
            forall|j: int| 0 <= j < i ==> r@[j] <= FULL,
        decreases a@.len() - i,
    {
        assert(a@[i as int].valid() && b@[i as int].valid());
        r.push((a[i].confidence + b[i].confidence) / 2);
        i = i + 1;
    }
    assert(nats(r@) =~= band_confidences(a@, b@));
    r
}

fn apply_confidence_weighting(v: &Vec<i64>, c: &Vec<u64>) -> (r: Vec<i64>)
    requires
        v@.len() == c@.len(),
        bounded(ints(v@), MAX_CORRECTION_SPAN as int),
        forall|i: int| 0 <= i < c@.len() ==> c@[i] <= FULL,
    ensures
        ints(r@) == confidence_weighted(ints(v@), nats(c@)),
        r@.len() == v@.len(),
        bounded(ints(r@), MAX_CORRECTION_SPAN as int),
{
    let mut r: Vec<i64> = Vec::new();
    let mut i: usize = 0;
    while i < v.len()
        invariant
            v@.len() == c@.len(),
            bounded(ints(v@), MAX_CORRECTION_SPAN as int),
            forall|i: int| 0 <= i < c@.len() ==> c@[i] <= FULL,
            i <= v@.len(),
            r@.len() == i,
            forall|j: int| 0 <= j < i ==> r@[j] == scale(v@[j] as int, sqrt_floor(c@[j] * 1000)),
            bounded(ints(r@), MAX_CORRECTION_SPAN as int),
        decreases v@.len() - i,
    {
        assert(ints(v@)[i as int] == v@[i as int]);
        let q = isqrt(c[i] * 1000);
        assert(q <= 1000) by (nonlinear_arith)
            requires q * q <= c@[i as int] * 1000, c@[i as int] <= 1000, q >= 0;
        let x = scale_by(v[i], q as i64, Ghost(MAX_CORRECTION_SPAN as int), Ghost(MAX_CORRECTION_SPAN as int));
        let ghost r0 = r@;
        r.push(x);
        proof { lemma_push_bounded(r0, x, MAX_CORRECTION_SPAN as int); }
        i = i + 1;
    }
    assert(ints(r@) =~= confidence_weighted(ints(v@), nats(c@)));
    r
}

/// Blend weight of the last smoothing pass.
fn last_pass_weight(factor: u64) -> (w: i64)
    requires
        factor <= FULL,
    ensures
        w == pass_weight(factor as int, 2),
        0 <= w <= 1000,
{
    (factor * 49 / 100) as i64
}

fn smoothing_pass_of(v: &Vec<i64>, w: i64) -> (r: Vec<i64>)
    requires
        bounded(ints(v@), MAX_CORRECTION_SPAN as int),
        0 <= w <= 1000,
    ensures
        ints(r@) == smoothing_pass(ints(v@), w as int),
        r@.len() == v@.len(),
        bounded(ints(r@), MAX_CORRECTION_SPAN as int),
{
    let ghost s = ints(v@);
    let n = v.len();
    let mut r: Vec<i64> = Vec::new();
    let mut i: usize = 0;
    while i < n
        invariant
            s == ints(v@),
            n == v@.len(),
            bounded(s, MAX_CORRECTION_SPAN as int),
            0 <= w <= 1000,
            i <= n,
            r@.len() == i,
            forall|j: int| 0 <= j < i ==> r@[j] == smoothing_pass(s, w as int)[j],
            bounded(ints(r@), MAX_CORRECTION_SPAN as int),
        decreases n - i,
    {
        let ghost r0 = r@;
        let b: i64 = MAX_CORRECTION_SPAN;
        if 0 < i && i < n - 1 {
            let prev = v[i - 1];
            let cur = v[i];
            let next = v[i + 1];
            assert(s[i - 1] == prev && s[i as int] == cur && s[i + 1] == next);
            proof {
                assert(-(4 * b * (1000 - w)) <= cur * (1000 - w) * 4 <= 4 * b * (1000 - w))
                    by (nonlinear_arith) requires -b <= cur <= b, 0 <= w <= 1000;
                assert(-(4 * b * w) <= (prev + 2 * cur + next) * w <= 4 * b * w)
                    by (nonlinear_arith) requires -b <= prev <= b, -b <= cur <= b, -b <= next <= b, 0 <= w;
                assert(4 * b * (1000 - w) + 4 * b * w == 4000 * b) by (nonlinear_arith);
                lemma_trunc_div_bound(
                    cur * (1000 - w) * 4 + (prev + 2 * cur + next) * w,
                    b as int,
                    4000,
                );
            }
            let x = div_trunc_exec(cur * (1000 - w) * 4 + (prev + 2 * cur + next) * w, 4000);
            r.push(x);
            proof { lemma_push_bounded(r0, x, b as int); }
        } else {
            assert(s[i as int] == v@[i as int]);
            r.push(v[i]);
            proof { lemma_push_bounded(r0, v@[i as int], b as int); }
        }
        i = i + 1;
    }
    assert(ints(r@) =~= smoothing_pass(s, w as int));
    r
}

/// Smoothing: of the three passes over the unsmoothed curve at falling
/// weights, each overwrites the one before, so the last one is computed.
fn smooth_corrections(v: &Vec<i64>, factor: u64) -> (r: Vec<i64>)
    requires
        bounded(ints(v@), MAX_CORRECTION_SPAN as int),
        factor <= FULL,
    ensures
        ints(r@) == smoothed(ints(v@), factor as int),
        r@.len() == v@.len(),
        bounded(ints(r@), MAX_CORRECTION_SPAN as int),
{
    if factor == 0 || v.len() < 3 {
        return v.clone();
    }
    smoothing_pass_of(v, last_pass_weight(factor))
}

/// Every value times `f` thousandths.
fn scale_all(v: &Vec<i64>, f: u64, b: Ghost<int>) -> (r: Vec<i64>)
    requires
        0 <= b@ <= MAX_CORRECTION_SPAN,
        bounded(ints(v@), b@),
        f <= FULL,
    ensures
        ints(r@) == scaled(ints(v@), f as int),
        r@.len() == v@.len(),
        bounded(ints(r@), b@),
{
    let mut r: Vec<i64> = Vec::new();
    let mut i: usize = 0;
    while i < v.len()
        invariant
            0 <= b@ <= MAX_CORRECTION_SPAN,
            bounded(ints(v@), b@),
            f <= FULL,
            i <= v@.len(),
            r@.len() == i,
            forall|j: int| 0 <= j < i ==> r@[j] == scale(v@[j] as int, f as int),
            bounded(ints(r@), b@),
        decreases v@.len() - i,
    {
        assert(ints(v@)[i as int] == v@[i as int]);
        proof {
            assert(b@ * f <= b@ * 1000) by (nonlinear_arith) requires 0 <= b@, f <= 1000;
        }
        let x = scale_by(v[i], f as i64, b, b);
        let ghost r0 = r@;
        r.push(x);
        proof { lemma_push_bounded(r0, x, b@); }
        i = i + 1;
    }
    assert(ints(r@) =~= scaled(ints(v@), f as int));
    r
}

/// Clamps every value to `[-m, m]`, with a warning for each clamp above
/// 0.1 dB.
fn limit_corrections(v: &Vec<i64>, m: i64, bands: &Vec<FrequencyBand>) -> (r: (Vec<i64>, Vec<MatchWarning>))
    requires
        v@.len() == bands@.len(),
        0 <= m <= MAX_GAIN,
        bounded(ints(v@), MAX_CORRECTION_SPAN as int),
    ensures
        ints(r.0@) == limited(ints(v@), m as int),
        r.0@.len() == v@.len(),
        r.1@ == limit_warnings(bands@, ints(v@), m as int, v@.len() as int),
        bounded(ints(r.0@), m as int),
{
    let ghost s = ints(v@);
    let mut r: Vec<i64> = Vec::new();
    let mut warnings: Vec<MatchWarning> = Vec::new();
    let mut i: usize = 0;
    while i < v.len()
        invariant
            s == ints(v@),
            v@.len() == bands@.len(),
            0 <= m <= MAX_GAIN,
            bounded(s, MAX_CORRECTION_SPAN as int),
            i <= v@.len(),
            r@.len() == i,
            forall|j: int| 0 <= j < i ==> r@[j] == clamp(s[j], m as int),
            bounded(ints(r@), m as int),
            warnings@ == limit_warnings(bands@, s, m as int, i as int),
        decreases v@.len() - i,
    {
        let x = v[i];
        assert(s[i as int] == x);
        let y: i64 = if x < -m { -m } else if x > m { m } else { x };
        if x - y > 100 || y - x > 100 {
            warnings.push(MatchWarning::Limited { frequency: bands[i].frequency, original: x, limited: y });
        }
        let ghost r0 = r@;
        r.push(y);
        proof { lemma_push_bounded(r0, y, m as int); }
        i = i + 1;
    }
    assert(ints(r@) =~= limited(s, m as int));
    (r, warnings)
}

/// The octave distance of each neighbouring pair that goes upwards (0 for
/// one that goes down).
fn pair_spans(bands: &Vec<FrequencyBand>) -> (r: Vec<u64>)
    requires
        forall|i: int| 0 <= i < bands@.len() ==> (#[trigger] bands@[i]).valid(),
    ensures
        spans_fit(bands@, nats(r@)),
        forall|i: int| 0 <= i < r@.len() ==> r@[i] <= 40 * STEPS_PER_OCTAVE,
{
    let mut r: Vec<u64> = Vec::new();
    let n = bands.len();
    if n == 0 {
        assert(nats(r@) =~= Seq::<int>::empty());
        return r;
    }
    let mut k: usize = 1;
    while k < n
        invariant
            n == bands@.len(),
            forall|i: int| 0 <= i < bands@.len() ==> (#[trigger] bands@[i]).valid(),
            1 <= k <= n,
            r@.len() == k - 1,
            forall|i: int| 0 <= i < r@.len() ==> r@[i] <= 40 * STEPS_PER_OCTAVE,
            forall|i: int| 0 <= i < r@.len() && bands@[i].frequency <= bands@[i + 1].frequency
                ==> octave_span_within(bands@[i].frequency as int, bands@[i + 1].frequency as int, #[trigger] r@[i] as int),
        decreases n - k,
    {
        let f0 = bands[k - 1].frequency;
        let f1 = bands[k].frequency;
        assert(bands@[k - 1].valid() && bands@[k as int].valid());
        if f0 <= f1 {
            let s = octave_span_of(f0, f1);
            r.push(s);
        } else {
            r.push(0);
        }
        k = k + 1;
    }
    let ghost t = nats(r@);
    assert forall|i: int| 0 <= i < t.len() && bands@[i].frequency <= bands@[i + 1].frequency
        implies octave_span_within(bands@[i].frequency as int, bands@[i + 1].frequency as int, #[trigger] t[i]) by {
        assert(t[i] == r@[i] as int);
    }
    r
}

/// Warnings for neighbouring bands that are more than 6 dB per octave apart.
fn check_slopes(bands: &Vec<FrequencyBand>, l: &Vec<i64>, spans: &Vec<u64>) -> (w: Vec<MatchWarning>)
    requires
        l@.len() == bands@.len(),
        spans@.len() == pair_count(bands@.len() as int),
        forall|i: int| 0 <= i < spans@.len() ==> spans@[i] <= 40 * STEPS_PER_OCTAVE,
        forall|i: int| 0 <= i < bands@.len() ==> (#[trigger] bands@[i]).valid(),
        bounded(ints(l@), MAX_CORRECTION_SPAN as int),
    ensures
        w@ == slope_warnings(bands@, ints(l@), nats(spans@), pair_count(bands@.len() as int)),
{
    let ghost s = ints(l@);
    let mut w: Vec<MatchWarning> = Vec::new();
    let n = l.len();
    if n == 0 {
        return w;
    }
    let mut k: usize = 1;
    while k < n
        invariant
            s == ints(l@),
            n == l@.len() == bands@.len(),
            forall|i: int| 0 <= i < bands@.len() ==> (#[trigger] bands@[i]).valid(),
            bounded(s, MAX_CORRECTION_SPAN as int),
            1 <= k <= n,
            spans@.len() == n - 1,
            forall|i: int| 0 <= i < spans@.len() ==> spans@[i] <= 40 * STEPS_PER_OCTAVE,
            w@ == slope_warnings(bands@, s, nats(spans@), k - 1),
        decreases n - k,
    {
        let a = l[k - 1];
        let b = l[k];
        assert(s[k - 1] == a && s[k as int] == b);
        let f0 = bands[k - 1].frequency;
        let f1 = bands[k].frequency;
        assert(bands@[k - 1].valid() && bands@[k as int].valid());
        let span = spans[k - 1];
        assert(nats(spans@)[k - 1] == span);
        if f0 <= f1 {
            let step: i64 = if b >= a { b - a } else { a - b };
            if step as u64 * 4096 > 6000 * span {
                w.push(MatchWarning::SteepSlope {
                    lower_frequency: f0,
                    upper_frequency: f1,
                    gain_step: step,
                    octave_span: span,
                });
            }
        }
        k = k + 1;
    }
    w
}

/// Absolute values, element by element.
fn abs_all(v: &Vec<i64>) -> (r: Vec<i64>)
    requires
        bounded(ints(v@), MAX_CORRECTION_SPAN as int),
    ensures
        ints(r@) == abs_values(ints(v@)),
        r@.len() == v@.len(),
        bounded(ints(r@), MAX_CORRECTION_SPAN as int),
{
    let mut r: Vec<i64> = Vec::new();
    let mut i: usize = 0;
    while i < v.len()
        invariant
            bounded(ints(v@), MAX_CORRECTION_SPAN as int),
            i <= v@.len(),
            r@.len() == i,
            forall|j: int| 0 <= j < i ==> r@[j] == abs(v@[j] as int),
            bounded(ints(r@), MAX_CORRECTION_SPAN as int),
        decreases v@.len() - i,
    {
        assert(ints(v@)[i as int] == v@[i as int]);
        let x: i64 = if v[i] < 0 { -v[i] } else { v[i] };
        let ghost r0 = r@;
        r.push(x);
        proof { lemma_push_bounded(r0, x, MAX_CORRECTION_SPAN as int); }
        i = i + 1;
    }
    assert(ints(r@) =~= abs_values(ints(v@)));
    r
}

fn check_total(l: &Vec<i64>) -> (w: Vec<MatchWarning>)
    requires
        l@.len() <= MAX_BANDS,
        bounded(ints(l@), MAX_CORRECTION_SPAN as int),
    ensures
        w@ == total_warning(ints(l@)),
{
    let a = abs_all(l);
    let total = sum_values(&a);
    let mut w: Vec<MatchWarning> = Vec::new();
    if total > 30_000 {
        w.push(MatchWarning::HighTotalCorrection { total });
    }
    assert(w@ =~= total_warning(ints(l@)));
    w
}

fn preservation_factor_of(ref_dr: i64, inp_dr: i64) -> (f: u64)
    requires
        0 <= ref_dr <= 2 * MAX_GAIN,
        0 <= inp_dr <= 2 * MAX_GAIN,
    ensures
        f == preservation_factor(ref_dr as int, inp_dr as int),
        700 <= f <= 1000,
{
    if ref_dr < inp_dr {
        let ratio = ref_dr * 1000 / inp_dr;
        proof {
            let a = ref_dr as int * 1000;
            let d = inp_dr as int;
            assert(ratio == a / d);
            vstd::arithmetic::div_mod::lemma_div_pos_is_pos(a, d);
            vstd::arithmetic::div_mod::lemma_div_is_ordered(a, d * 1000, d);
            vstd::arithmetic::div_mod::lemma_div_by_multiple(1000, d);
            assert(a <= d * 1000) by (nonlinear_arith) requires 0 <= ref_dr < d, a == ref_dr * 1000;
            assert(d * 1000 / d == 1000) by { vstd::arithmetic::mul::lemma_mul_is_commutative(d, 1000); }
        }
        let loss: i64 = 1000 - ratio;
        let capped: i64 = if loss < 300 { loss } else { 300 };
        (1000 - capped) as u64
    } else {
        1000
    }
}

fn confidences_as_levels(c: &Vec<u64>) -> (r: Vec<i64>)
    requires
        forall|i: int| 0 <= i < c@.len() ==> c@[i] <= FULL,
    ensures
        ints(r@) == nats(c@),
        r@.len() == c@.len(),
        bounded(ints(r@), MAX_CORRECTION_SPAN as int),
{
    let mut r: Vec<i64> = Vec::new();
    let mut i: usize = 0;
    while i < c.len()
        invariant
            forall|i: int| 0 <= i < c@.len() ==> c@[i] <= FULL,
            i <= c@.len(),
            r@.len() == i,
            forall|j: int| 0 <= j < i ==> r@[j] == c@[j],
            bounded(ints(r@), MAX_CORRECTION_SPAN as int),
        decreases c@.len() - i,
    {
        let x = c[i] as i64;
        let ghost r0 = r@;
        r.push(x);
        proof { lemma_push_bounded(r0, x, MAX_CORRECTION_SPAN as int); }
        i = i + 1;
    }
    assert(ints(r@) =~= nats(c@));
    r
}

fn count_steep_steps(bands: &Vec<FrequencyBand>, g: &Vec<i64>, spans: &Vec<u64>) -> (n: u64)
    requires
        g@.len() == bands@.len(),
        spans@.len() == pair_count(bands@.len() as int),
        forall|i: int| 0 <= i < spans@.len() ==> spans@[i] <= 40 * STEPS_PER_OCTAVE,
        g@.len() >= 1,
        g@.len() <= MAX_BANDS,
        forall|i: int| 0 <= i < bands@.len() ==> (#[trigger] bands@[i]).valid(),
        bounded(ints(g@), MAX_CORRECTION_SPAN as int),
    ensures
        n == steep_steps(bands@, ints(g@), nats(spans@), g@.len() - 1),
        n <= MAX_BANDS,
{
    let ghost s = ints(g@);
    let mut n: u64 = 0;
    let mut k: usize = 1;
    while k < g.len()
        invariant
            s == ints(g@),
            g@.len() == bands@.len(),
            1 <= k <= g@.len() <= MAX_BANDS,
            forall|i: int| 0 <= i < bands@.len() ==> (#[trigger] bands@[i]).valid(),
            bounded(s, MAX_CORRECTION_SPAN as int),
            spans@.len() == g@.len() - 1,
            forall|i: int| 0 <= i < spans@.len() ==> spans@[i] <= 40 * STEPS_PER_OCTAVE,
            n == steep_steps(bands@, s, nats(spans@), k - 1),
            n < k,
        decreases g@.len() - k,
    {
        let a = g[k - 1];
        let b = g[k];
        assert(s[k - 1] == a && s[k as int] == b);
        let f0 = bands[k - 1].frequency;
        let f1 = bands[k].frequency;
        assert(bands@[k - 1].valid() && bands@[k as int].valid());
        let span = spans[k - 1];
        assert(nats(spans@)[k - 1] == span);
        if f0 <= f1 {
            let step: i64 = if b >= a { b - a } else { a - b };
            if step as u64 * 4096 > 6000 * span {
                n = n + 1;
            }
        }
        k = k + 1;
    }
    n
}

/// Score of a correction curve, parts per thousand.
fn match_quality(bands: &Vec<FrequencyBand>, g: &Vec<i64>, c: &Vec<u64>, spans: &Vec<u64>) -> (q: u64)
    requires
        spans@.len() == pair_count(bands@.len() as int),
        forall|i: int| 0 <= i < spans@.len() ==> spans@[i] <= 40 * STEPS_PER_OCTAVE,
        g@.len() == c@.len(),
        g@.len() == bands@.len(),
        forall|i: int| 0 <= i < bands@.len() ==> (#[trigger] bands@[i]).valid(),
        g@.len() <= MAX_BANDS,
        bounded(ints(g@), MAX_CORRECTION_SPAN as int),
        forall|i: int| 0 <= i < c@.len() ==> c@[i] <= FULL,
    ensures
        q == quality(bands@, ints(g@), nats(c@), nats(spans@)),
        q <= FULL,
{
    let n = g.len();
    let a = abs_all(g);
    let cs = confidences_as_levels(c);
    let mut mean_abs: i64 = 0;
    let mut mean_conf: i64 = 0;
    let mut steps: u64 = 0;
    if n > 0 {
        proof {
            lemma_mean_bounded(ints(a@), MAX_CORRECTION_SPAN as int);
            lemma_mean_bounded(ints(cs@), MAX_CORRECTION_SPAN as int);
        }
        mean_abs = div_floor(sum_values(&a), n as i64);
        mean_conf = div_floor(sum_values(&cs), n as i64);
        steps = count_steep_steps(bands, g, spans);
    }
    assert(mean_abs == mean(abs_values(ints(g@))));
    assert(mean_conf == mean(nats(c@)));
    proof {
        if n > 0 {
            let t = nats(c@);
            assert(bounded(t, 1000)) by {
                assert forall|i: int| 0 <= i < t.len() implies -1000 <= #[trigger] t[i] <= 1000 by {
                    assert(t[i] == c@[i]);
                }
            }
            lemma_mean_bounded(t, 1000);
            let u = abs_values(ints(g@));
            assert(bounded(u, MAX_CORRECTION_SPAN as int)) by {
                assert forall|i: int| 0 <= i < u.len() implies
                    -MAX_CORRECTION_SPAN <= #[trigger] u[i] <= MAX_CORRECTION_SPAN by {
                    assert(u[i] == ints(a@)[i]);
                }
            }
            lemma_mean_bounded(u, MAX_CORRECTION_SPAN as int);
        }
    }
    let p = div_floor(mean_abs, 10);
    let penalty: i64 = if p < 400 { p } else { 400 };
    let base: i64 = 1000 - penalty - 50 * (steps as i64);
    let weight: i64 = 7000 + 3 * mean_conf;
    proof {
        assert(-6_000_000 <= base <= 1_000_000);
        assert(-6_000_000 * 10000 <= base * weight <= 1_000_000 * 10000) by (nonlinear_arith)
            requires -6_000_000 <= base <= 1_000_000, 4000 <= weight <= 10000;
    }
    let raw = div_floor(base * weight, 10000);
    if raw < 0 {
        0
    } else if raw > 1000 {
        1000
    } else {
        raw as u64
    }
}

/// What a successful match of `reference` against `input` holds.
pub open spec fn is_match_of(reference: EQProfile, input: EQProfile, cfg: MatchConfig, m: MatchResult) -> bool {
    let bands = m.correction_profile.bands@;
    let conf = band_confidences(reference.bands@, input.bands@);
    let g = corrections(reference, input, cfg);
    &&& ints(m.reference_normalized@) == normalized(gains_of(reference.bands@))
    &&& ints(m.input_normalized@) == normalized(gains_of(input.bands@))
    &&& bands.len() == reference.bands@.len()
    &&& gains_of(bands) == g
    &&& confidences_of(bands) == conf
    &&& forall|i: int| 0 <= i < bands.len() ==> {
        &&& (#[trigger] bands[i]).frequency == reference.bands@[i].frequency
        &&& bands[i].bandwidth == reference.bands@[i].bandwidth
    }
    &&& m.correction_profile.overall_loudness == reference.overall_loudness
    &&& m.correction_profile.dynamic_range == reference.dynamic_range
    &&& m.correction_profile.spectral_centroid == reference.spectral_centroid
    &&& m.correction_profile.spectral_rolloff == reference.spectral_rolloff
    &&& exists|spans: Seq<int>| {
        &&& spans_fit(reference.bands@, spans)
        &&& m.quality_score == quality(reference.bands@, g, conf, spans)
        &&& m.warnings@ == match_warnings(reference, input, cfg, spans)
    }
}

/// Derives the per-band correction that moves `input`'s tonal balance
/// towards `reference`'s; both must have the same number of bands, and at
/// least one.
pub fn match_profiles(reference: &EQProfile, input: &EQProfile, config: &MatchConfig) -> (r: Result<MatchResult, MatchError>)
    requires
        reference.valid(),
        input.valid(),
        config.valid(),
    ensures
        r is Err <==> reference.bands@.len() != input.bands@.len() || reference.bands@.len() == 0,
        r matches Err(e) ==> e == if reference.bands@.len() != input.bands@.len() {
            MatchError::BandCountMismatch {
                reference: reference.bands@.len() as usize,
                input: input.bands@.len() as usize,
            }
        } else {
            MatchError::NoBands
        },
        r matches Ok(m) ==> is_match_of(*reference, *input, *config, m),
        r matches Ok(m) ==> forall|i: int| 0 <= i < m.correction_profile.bands@.len() ==>
            -config.max_correction <= (#[trigger] m.correction_profile.bands@[i]).gain_db
                <= config.max_correction,
        r matches Ok(m) ==> m.quality_score <= FULL,
{
    let n = reference.bands.len();
    if n != input.bands.len() {
        return Err(MatchError::BandCountMismatch { reference: n, input: input.bands.len() });
    }
    if n == 0 {
        return Err(MatchError::NoBands);
    }
    let ghost rb = reference.bands@;
    let ghost ib = input.bands@;
    let rg = gains(&reference.bands);
    let ig = gains(&input.bands);
    proof {
        assert(bounded(ints(rg@), MAX_GAIN as int)) by {
            assert forall|i: int| 0 <= i < ints(rg@).len() implies
                -MAX_GAIN <= #[trigger] ints(rg@)[i] <= MAX_GAIN by {
                assert(rb[i].valid());
            }
        }
        assert(bounded(ints(ig@), MAX_GAIN as int)) by {
            assert forall|i: int| 0 <= i < ints(ig@).len() implies
                -MAX_GAIN <= #[trigger] ints(ig@)[i] <= MAX_GAIN by {
                assert(ib[i].valid());
            }
        }
    }
    let ref_normalized = normalize(&rg);
    let inp_normalized = normalize(&ig);
    let diff = differences(&ref_normalized, &inp_normalized);
    let weighted = if config.use_psychoacoustic {
        apply_psychoacoustic_weighting(&diff)
    } else {
        proof { lemma_bounded_weaken(ints(diff@), 4 * MAX_GAIN, MAX_CORRECTION_SPAN as int); }
        diff
    };
    assert(ints(weighted@) == weighted_differences(*reference, *input, *config));
    let conf = mean_confidences(&reference.bands, &input.bands);
    let confident = apply_confidence_weighting(&weighted, &conf);
    let smooth = smooth_corrections(&confident, config.smoothing_factor);
    let intense = scale_all(&smooth, config.intensity, Ghost(MAX_CORRECTION_SPAN as int));
    assert(ints(intense@) == unlimited_corrections(*reference, *input, *config));
    let (limited_gains, mut warnings) = limit_corrections(&intense, config.max_correction, &reference.bands);
    let spans = pair_spans(&reference.bands);
    let mut slope = check_slopes(&reference.bands, &limited_gains, &spans);
    let mut total = check_total(&limited_gains);
    warnings.append(&mut slope);
    warnings.append(&mut total);
    let final_gains = if config.preserve_dynamics {
        let f = preservation_factor_of(reference.dynamic_range, input.dynamic_range);
        scale_all(&limited_gains, f, Ghost(config.max_correction as int))
    } else {
        limited_gains
    };
    assert(ints(final_gains@) == corrections(*reference, *input, *config));
    proof {
        lemma_bounded_weaken(ints(final_gains@), config.max_correction as int, MAX_CORRECTION_SPAN as int);
    }
    let quality_score = match_quality(&reference.bands, &final_gains, &conf, &spans);
    let mut bands: Vec<FrequencyBand> = Vec::new();
    let mut i: usize = 0;
    while i < n
        invariant
            n == rb.len(),
            rb == reference.bands@,
            final_gains@.len() == n,
            conf@.len() == n,
            i <= n,
            bands@.len() == i,
            forall|j: int| 0 <= j < i ==> {
                &&& (#[trigger] bands@[j]).frequency == rb[j].frequency
                &&& bands@[j].bandwidth == rb[j].bandwidth
                &&& bands@[j].gain_db == final_gains@[j]
                &&& bands@[j].confidence == conf@[j]
            },
        decreases n - i,
    {
        bands.push(FrequencyBand {
            frequency: reference.bands[i].frequency,
            gain_db: final_gains[i],
            bandwidth: reference.bands[i].bandwidth,
            confidence: conf[i],
        });
        i = i + 1;
    }
    assert(gains_of(bands@) =~= ints(final_gains@));
    assert forall|j: int| 0 <= j < bands@.len() implies
        -config.max_correction <= (#[trigger] bands@[j]).gain_db <= config.max_correction by {
        assert(ints(final_gains@)[j] == final_gains@[j]);
    }
    assert(confidences_of(bands@) =~= nats(conf@));
    let correction_profile = EQProfile {
        bands,
        overall_loudness: reference.overall_loudness,
        dynamic_range: reference.dynamic_range,
        spectral_centroid: reference.spectral_centroid,
        spectral_rolloff: reference.spectral_rolloff,
    };
    proof {
        let sp = nats(spans@);
        assert(spans_fit(reference.bands@, sp));
        assert(quality_score == quality(reference.bands@, ints(final_gains@), nats(conf@), sp));
    }
    Ok(MatchResult {
        correction_profile,
        reference_normalized: ref_normalized,
        input_normalized: inp_normalized,
        quality_score,
        warnings,
    })
}

pub open spec fn all_zero(s: Seq<int>) -> bool {
    forall|i: int| 0 <= i < s.len() ==> #[trigger] s[i] == 0
}

proof fn lemma_zero_stays_zero(reference: EQProfile, input: EQProfile, cfg: MatchConfig)
    requires
        cfg.valid(),
        all_zero(unlimited_corrections(reference, input, cfg)),
    ensures
        all_zero(limited_corrections(reference, input, cfg)),
        all_zero(corrections(reference, input, cfg)),
{
    let l = limited_corrections(reference, input, cfg);
    let t = unlimited_corrections(reference, input, cfg);
    assert forall|i: int| 0 <= i < l.len() implies #[trigger] l[i] == 0 by {
        assert(t[i] == 0);
    }
    let f = preservation_factor(reference.dynamic_range as int, input.dynamic_range as int);
    let g = scaled(l, f);
    assert forall|i: int| 0 <= i < g.len() implies #[trigger] g[i] == 0 by {
        assert(l[i] == 0);
        assert(0 * f == 0);
    }
}

/// At intensity zero every band of the correction is zero.
pub proof fn lemma_zero_intensity_gives_flat_correction(reference: EQProfile, input: EQProfile, cfg: MatchConfig)
    requires
        cfg.valid(),
        cfg.intensity == 0,
    ensures
        all_zero(corrections(reference, input, cfg)),
{
    let t = unlimited_corrections(reference, input, cfg);
    assert forall|i: int| 0 <= i < t.len() implies #[trigger] t[i] == 0 by {
        let c = confidence_weighted(
            weighted_differences(reference, input, cfg),
            band_confidences(reference.bands@, input.bands@),
        );
        let x = smoothed(c, cfg.smoothing_factor as int)[i];
        assert(x * 0 == 0);
    }
    lemma_zero_stays_zero(reference, input, cfg);
}

proof fn lemma_steep_steps_flat(bands: Seq<FrequencyBand>, g: Seq<int>, spans: Seq<int>, k: int)
    requires
        all_zero(g),
        k < g.len(),
        k < bands.len(),
        spans_fit(bands, spans),
    ensures
        steep_steps(bands, g, spans, k) == 0,
    decreases k,
{
    if k > 0 {
        lemma_steep_steps_flat(bands, g, spans, k - 1);
        assert(g[k] == 0 && g[k - 1] == 0);
        if bands[k - 1].frequency <= bands[k].frequency {
            assert(octave_span_within(bands[k - 1].frequency as int, bands[k].frequency as int, spans[k - 1]));
        }
    }
}

proof fn lemma_sum_zero(s: Seq<int>)
    requires
        all_zero(s),
    ensures
        sum(s) == 0,
    decreases s.len(),
{
    if s.len() > 0 {
        lemma_sum_zero(s.drop_last());
        assert(s.last() == 0);
    }
}

proof fn lemma_sum_constant(s: Seq<int>, c: int)
    requires
        forall|i: int| 0 <= i < s.len() ==> #[trigger] s[i] == c,
    ensures
        sum(s) == s.len() * c,
    decreases s.len(),
{
    if s.len() > 0 {
        lemma_sum_constant(s.drop_last(), c);
        assert(s.last() == c);
        assert((s.len() - 1) * c + c == s.len() * c) by (nonlinear_arith);
    }
}

/// Matching a profile against itself asks for no correction at all, and
/// where every band is fully trusted the quality is perfect.
pub proof fn lemma_self_match_is_flat(profile: EQProfile, cfg: MatchConfig)
    requires
        profile.valid(),
        cfg.valid(),
    ensures
        all_zero(corrections(profile, profile, cfg)),
        forall|spans: Seq<int>| spans_fit(profile.bands@, spans) && profile.bands@.len() > 0
            && (forall|i: int| 0 <= i < profile.bands@.len()
            ==> (#[trigger] profile.bands@[i]).confidence == FULL)
            ==> #[trigger] quality(
                profile.bands@,
                corrections(profile, profile, cfg),
                band_confidences(profile.bands@, profile.bands@),
                spans,
            ) == FULL,
{
    let n = normalized(gains_of(profile.bands@));
    let d = Seq::new(n.len(), |i: int| n[i] - n[i]);
    let w = weighted_differences(profile, profile, cfg);
    assert(all_zero(w)) by {
        assert forall|i: int| 0 <= i < w.len() implies #[trigger] w[i] == 0 by {
            assert(d[i] == 0);
            assert(0 * psychoacoustic_weight(i) == 0);
        }
    }
    let conf = band_confidences(profile.bands@, profile.bands@);
    let c = confidence_weighted(w, conf);
    assert(all_zero(c)) by {
        assert forall|i: int| 0 <= i < c.len() implies #[trigger] c[i] == 0 by {
            assert(w[i] == 0);
            assert(0 * sqrt_floor(conf[i] * 1000) == 0);
        }
    }
    let f = cfg.smoothing_factor as int;
    let sm = smoothed(c, f);
    assert(all_zero(sm)) by {
        if !(f == 0 || c.len() < 3) {
            let wt = pass_weight(f, 2);
            assert forall|i: int| 0 <= i < sm.len() implies #[trigger] sm[i] == 0 by {
                if 0 < i < c.len() - 1 {
                    assert(c[i - 1] == 0 && c[i] == 0 && c[i + 1] == 0);
                    let num = c[i] * (1000 - wt) * 4 + (c[i - 1] + 2 * c[i] + c[i + 1]) * wt;
                    assert(num == 0) by (nonlinear_arith)
                        requires num == c[i] * (1000 - wt) * 4 + (c[i - 1] + 2 * c[i] + c[i + 1]) * wt,
                            c[i - 1] == 0, c[i] == 0, c[i + 1] == 0;
                } else {
                    assert(c[i] == 0);
                }
            }
        }
    }
    let t = unlimited_corrections(profile, profile, cfg);
    assert(all_zero(t)) by {
        assert forall|i: int| 0 <= i < t.len() implies #[trigger] t[i] == 0 by {
            assert(sm[i] == 0);
            assert(0 * (cfg.intensity as int) == 0);
        }
    }
    lemma_zero_stays_zero(profile, profile, cfg);
    let g = corrections(profile, profile, cfg);
    assert forall|spans: Seq<int>| spans_fit(profile.bands@, spans) && profile.bands@.len() > 0
        && (forall|i: int| 0 <= i < profile.bands@.len()
        ==> (#[trigger] profile.bands@[i]).confidence == FULL)
        implies #[trigger] quality(profile.bands@, g, conf, spans) == FULL by {
        assert(g.len() == profile.bands@.len());
        lemma_steep_steps_flat(profile.bands@, g, spans, g.len() - 1);
        assert(steep_steps(profile.bands@, g, spans, g.len() - 1) == 0);
        lemma_sum_zero(abs_values(g));
        assert forall|i: int| 0 <= i < conf.len() implies #[trigger] conf[i] == 1000 by {
            assert(profile.bands@[i].confidence == FULL);
        }
        lemma_sum_constant(conf, 1000);
        vstd::arithmetic::div_mod::lemma_div_by_multiple(1000, conf.len() as int);
        assert(conf.len() * 1000 == 1000 * conf.len()) by (nonlinear_arith);
        assert(mean(conf) == 1000);
        assert(mean(abs_values(g)) == 0);
        assert(1000int * (7000 + 3 * 1000) / 10000 == 1000);
        assert(quality(profile.bands@, g, conf, spans) == 1000);
    }
}

/// Whatever the curve and confidences, the quality lies in `[0, 1]`.
pub proof fn lemma_quality_in_unit_range(bands: Seq<FrequencyBand>, g: Seq<int>, c: Seq<int>, spans: Seq<int>)
    ensures
        0 <= quality(bands, g, c, spans) <= FULL,
{
}

proof fn lemma_scaled_within(s: Seq<int>, f: int, m: int)
    requires
        bounded(s, m),
        0 <= f <= 1000,
        m >= 0,
    ensures
        bounded(scaled(s, f), m),
{
    let t = scaled(s, f);
    assert forall|i: int| 0 <= i < t.len() implies -m <= #[trigger] t[i] <= m by {
        let x = s[i];
        assert(-(1000 * m) <= x * f <= 1000 * m) by (nonlinear_arith)
            requires -m <= x <= m, 0 <= f <= 1000, m >= 0;
        lemma_trunc_div_bound(x * f, m, 1000);
    }
}

/// Every band of the correction lies within the configured ceiling, for
/// any pair of profiles.
pub proof fn lemma_corrections_within_ceiling(reference: EQProfile, input: EQProfile, cfg: MatchConfig)
    requires
        reference.valid(),
        input.valid(),
        cfg.valid(),
    ensures
        bounded(corrections(reference, input, cfg), cfg.max_correction as int),
{
    let m = cfg.max_correction as int;
    let l = limited_corrections(reference, input, cfg);
    assert(bounded(l, m));
    if cfg.preserve_dynamics {
        let rd = reference.dynamic_range as int;
        let id = input.dynamic_range as int;
        let f = preservation_factor(rd, id);
        if rd < id {
            vstd::arithmetic::div_mod::lemma_div_pos_is_pos(rd * 1000, id);
            assert(rd * 1000 <= id * 1000);
            vstd::arithmetic::div_mod::lemma_div_is_ordered(rd * 1000, id * 1000, id);
            vstd::arithmetic::div_mod::lemma_div_by_multiple(1000, id);
            vstd::arithmetic::mul::lemma_mul_is_commutative(id, 1000);
        }
        assert(0 <= f <= 1000);
        lemma_scaled_within(l, f, m);
    }
}

/// Every value of `s` negated.
pub open spec fn negated(s: Seq<int>) -> Seq<int> {
    Seq::new(s.len(), |i: int| -s[i])
}

proof fn lemma_scale_negated(x: int, f: int)
    ensures
        scale(-x, f) == -scale(x, f),
{
    assert((-x) * f == -(x * f)) by (nonlinear_arith);
    lemma_trunc_div_neg(x * f, 1000);
}

/// Swapping reference and input negates the correction curve exactly,
/// when the dynamic range is not preserved (that step depends on which
/// profile is the reference).
pub proof fn lemma_swap_negates_correction(reference: EQProfile, input: EQProfile, cfg: MatchConfig)
    requires
        reference.bands@.len() == input.bands@.len(),
        cfg.valid(),
        !cfg.preserve_dynamics,
    ensures
        corrections(input, reference, cfg) == negated(corrections(reference, input, cfg)),
{
    let w1 = weighted_differences(reference, input, cfg);
    let w2 = weighted_differences(input, reference, cfg);
    assert(w2 =~= negated(w1)) by {
        assert forall|i: int| 0 <= i < w2.len() implies w2[i] == negated(w1)[i] by {
            if cfg.use_psychoacoustic {
                let rn = normalized(gains_of(reference.bands@));
                let inn = normalized(gains_of(input.bands@));
                lemma_scale_negated(rn[i] - inn[i], psychoacoustic_weight(i));
            }
        }
    }
    let c1 = band_confidences(reference.bands@, input.bands@);
    let c2 = band_confidences(input.bands@, reference.bands@);
    assert(c1 =~= c2);
    let a1 = confidence_weighted(w1, c1);
    let a2 = confidence_weighted(w2, c2);
    assert(a2 =~= negated(a1)) by {
        assert forall|i: int| 0 <= i < a2.len() implies a2[i] == negated(a1)[i] by {
            lemma_scale_negated(w1[i], sqrt_floor(c1[i] * 1000));
        }
    }
    let f = cfg.smoothing_factor as int;
    let s1 = smoothed(a1, f);
    let s2 = smoothed(a2, f);
    assert(s2 =~= negated(s1)) by {
        if !(f == 0 || a1.len() < 3) {
            let wt = pass_weight(f, 2);
            assert forall|i: int| 0 <= i < s2.len() implies s2[i] == negated(s1)[i] by {
                if 0 < i < a1.len() - 1 {
                    let n1 = a1[i] * (1000 - wt) * 4 + (a1[i - 1] + 2 * a1[i] + a1[i + 1]) * wt;
                    let n2 = a2[i] * (1000 - wt) * 4 + (a2[i - 1] + 2 * a2[i] + a2[i + 1]) * wt;
                    assert(n2 == -n1) by (nonlinear_arith)
                        requires
                            n1 == a1[i] * (1000 - wt) * 4 + (a1[i - 1] + 2 * a1[i] + a1[i + 1]) * wt,
                            n2 == a2[i] * (1000 - wt) * 4 + (a2[i - 1] + 2 * a2[i] + a2[i + 1]) * wt,
                            a2[i] == -a1[i], a2[i - 1] == -a1[i - 1], a2[i + 1] == -a1[i + 1];
                    lemma_trunc_div_neg(n1, 4000);
                }
            }
        }
    }
    let t1 = unlimited_corrections(reference, input, cfg);
    let t2 = unlimited_corrections(input, reference, cfg);
    assert(t2 =~= negated(t1)) by {
        assert forall|i: int| 0 <= i < t2.len() implies t2[i] == negated(t1)[i] by {
            lemma_scale_negated(s1[i], cfg.intensity as int);
        }
    }
    let l1 = corrections(reference, input, cfg);
    let l2 = corrections(input, reference, cfg);
    assert forall|i: int| 0 <= i < l2.len() implies l2[i] == negated(l1)[i] by {
        assert(t2[i] == -t1[i]);
    }
    assert(l2 =~= negated(l1));
}

} // verus!
