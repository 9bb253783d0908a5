use eq_matcher::matcher::{match_profiles, MatchConfig, MatchError, MatchWarning};
use eq_matcher::profile::{EQProfile, FrequencyBand};

const CENTRES: [u64; 10] = [
    31_500, 63_000, 125_000, 250_000, 500_000, 1_000_000, 2_000_000, 4_000_000, 8_000_000,
    16_000_000,
];

fn profile(gains_db: &[i64], confidence: u64, dynamic_range: i64) -> EQProfile {
    let bands = gains_db
        .iter()
        .zip(CENTRES.iter())
        .map(|(&g, &f)| FrequencyBand {
            frequency: f,
            gain_db: g * 1000,
            bandwidth: f * 23 / 100,
            confidence,
        })
        .collect();
    EQProfile {
        bands,
        overall_loudness: -20_000,
        dynamic_range,
        spectral_centroid: 1_500_000,
        spectral_rolloff: 8_000_000,
    }
}

fn plain_config(intensity: u64, max_correction: i64) -> MatchConfig {
    MatchConfig {
        intensity,
        max_correction,
        smoothing_factor: 0,
        use_psychoacoustic: false,
        preserve_dynamics: false,
    }
}

fn gains(p: &EQProfile) -> Vec<i64> {
    p.bands.iter().map(|b| b.gain_db).collect()
}

#[test]
fn reference_curve_against_flat_input() {
    let reference = profile(&[-2, 0, 3, 1, -1, 0, 2, 1, -2, -3], 1000, 20_000);
    let input = profile(&[0; 10], 1000, 20_000);
    let r = match_profiles(&reference, &input, &plain_config(1000, 6000)).unwrap();
    assert_eq!(
        gains(&r.correction_profile),
        vec![-1900, 100, 3100, 1100, -900, 100, 2100, 1100, -1900, -2900]
    );
    assert_eq!(r.reference_normalized, vec![-1900, 100, 3100, 1100, -900, 100, 2100, 1100, -1900, -2900]);
    assert_eq!(r.input_normalized, vec![0; 10]);
    assert!(r.warnings.is_empty());
    assert_eq!(r.quality_score, 848);
    assert_eq!(r.correction_profile.overall_loudness, -20_000);
    assert_eq!(r.correction_profile.dynamic_range, 20_000);
    assert_eq!(r.correction_profile.spectral_centroid, 1_500_000);
    assert_eq!(r.correction_profile.spectral_rolloff, 8_000_000);
    assert_eq!(r.correction_profile.bands[3].frequency, 250_000);
}

#[test]
fn zero_intensity_gives_flat_curve() {
    let reference = profile(&[-9, 4, 3, 12, -1, 0, 2, 7, -2, -3], 800, 20_000);
    let input = profile(&[1, 2, -5, 0, 0, 3, 0, -4, 1, 2], 600, 30_000);
    let mut cfg = MatchConfig::default();
    cfg.intensity = 0;
    let r = match_profiles(&reference, &input, &cfg).unwrap();
    assert!(gains(&r.correction_profile).iter().all(|&g| g == 0));
}

#[test]
fn corrections_stay_within_ceiling() {
    let reference = profile(&[-20, 15, 3, 12, -18, 0, 25, 7, -2, -30], 1000, 20_000);
    let input = profile(&[0; 10], 1000, 20_000);
    let r = match_profiles(&reference, &input, &plain_config(1000, 3000)).unwrap();
    assert!(gains(&r.correction_profile).iter().all(|&g| -3000 <= g && g <= 3000));
    assert!(r.warnings.contains(&MatchWarning::Limited {
        frequency: 31_500,
        original: -19_200,
        limited: -3000,
    }));
}

#[test]
fn self_match_is_flat_and_perfect() {
    let p = profile(&[-2, 5, 3, 1, -7, 0, 2, 1, -2, -3], 1000, 20_000);
    let r = match_profiles(&p, &p, &MatchConfig::default()).unwrap();
    assert!(gains(&r.correction_profile).iter().all(|&g| g == 0));
    assert_eq!(r.quality_score, 1000);
    assert!(r.warnings.is_empty());
}

#[test]
fn self_match_quality_follows_confidence() {
    let p = profile(&[-2, 5, 3, 1, -7, 0, 2, 1, -2, -3], 500, 20_000);
    let r = match_profiles(&p, &p, &MatchConfig::default()).unwrap();
    assert_eq!(r.quality_score, 850);
}

#[test]
fn quality_stays_in_unit_range() {
    let reference = profile(&[-40, 40, -40, 40, -40, 40, -40, 40, -40, 40], 0, 20_000);
    let input = profile(&[40, -40, 40, -40, 40, -40, 40, -40, 40, -40], 1000, 20_000);
    let r = match_profiles(&reference, &input, &plain_config(1000, 100_000)).unwrap();
    assert!(r.quality_score <= 1000);
    let reference = profile(&[-40, 40, -40, 40, -40, 40, -40, 40, -40, 40], 1000, 20_000);
    let r = match_profiles(&reference, &input, &plain_config(1000, 100_000)).unwrap();
    // Penalty capped at 0.4 and nine steep steps at 0.05 each.
    assert_eq!(r.quality_score, 150);
}

#[test]
fn mismatched_band_counts_are_refused() {
    let reference = profile(&[0; 10], 1000, 20_000);
    let input = profile(&[0; 9], 1000, 20_000);
    let r = match_profiles(&reference, &input, &MatchConfig::default());
    assert_eq!(r.unwrap_err(), MatchError::BandCountMismatch { reference: 10, input: 9 });
}

#[test]
fn steep_step_and_total_are_reported() {
    let reference = profile(&[0, 0, 0, 0, 10, 10, 10, 10, 10, 10], 1000, 20_000);
    let input = profile(&[0; 10], 1000, 20_000);
    let r = match_profiles(&reference, &input, &plain_config(1000, 20_000)).unwrap();
    assert_eq!(gains(&r.correction_profile), vec![-6000, -6000, -6000, -6000, 4000, 4000, 4000, 4000, 4000, 4000]);
    assert_eq!(
        r.warnings,
        vec![
            MatchWarning::SteepSlope {
                lower_frequency: 250_000,
                upper_frequency: 500_000,
                gain_step: 10_000,
                octave_span: 4096,
            },
            MatchWarning::HighTotalCorrection { total: 48_000 },
        ]
    );
    // One step above 6 dB: penalty 0.48 capped at 0.4, less 0.05.
    assert_eq!(r.quality_score, 550);
}

#[test]
fn slope_is_measured_per_octave() {
    let mut reference = profile(&[0, 0, 0, 0, 0, 0, 0, 0, 0, 10], 1000, 20_000);
    reference.bands[9].frequency = 32_000_000;
    let input = profile(&[0; 10], 1000, 20_000);
    let r = match_profiles(&reference, &input, &plain_config(1000, 20_000)).unwrap();
    // 10 dB over two octaves is 5 dB per octave: no warning and no step
    // penalty, only the mean correction of 1.8 dB.
    assert!(r.warnings.is_empty());
    assert_eq!(r.quality_score, 820);
}

#[test]
fn ear_sensitivity_weights_bands() {
    let reference = profile(&[1, 1, 1, 1, 1, 1, 1, 1, 1, 11], 1000, 20_000);
    let input = profile(&[0; 10], 1000, 20_000);
    let mut cfg = plain_config(1000, 20_000);
    cfg.use_psychoacoustic = true;
    let r = match_profiles(&reference, &input, &cfg).unwrap();
    // Normalised differences are -1 dB except +9 dB on the last band.
    assert_eq!(
        gains(&r.correction_profile),
        vec![-600, -700, -850, -950, -1100, -1300, -1350, -1250, -1000, 6300]
    );
}

#[test]
fn confidence_softens_corrections() {
    let reference = profile(&[2, 0, 0, 0, 0, 0, 0, 0, 0, -2], 250, 20_000);
    let input = profile(&[0; 10], 250, 20_000);
    let r = match_profiles(&reference, &input, &plain_config(1000, 20_000)).unwrap();
    // sqrt(0.25) = 0.5.
    assert_eq!(r.correction_profile.bands[0].gain_db, 1000);
    assert_eq!(r.correction_profile.bands[9].gain_db, -1000);
    assert_eq!(r.correction_profile.bands[0].confidence, 250);
}

#[test]
fn smoothing_blends_interior_bands() {
    let reference = profile(&[0, 0, 0, 0, 10, 0, 0, 0, 0, 0], 1000, 20_000);
    let input = profile(&[0; 10], 1000, 20_000);
    let mut cfg = plain_config(1000, 20_000);
    cfg.smoothing_factor = 1000;
    let r = match_profiles(&reference, &input, &cfg).unwrap();
    // Differences: -1 dB everywhere but +9 dB at index 4; last pass weight 0.49.
    let g = gains(&r.correction_profile);
    assert_eq!(g[0], -1000);
    assert_eq!(g[9], -1000);
    assert_eq!(g[4], 6550);
    assert_eq!(g[3], 225);
    assert_eq!(g[5], 225);
    assert_eq!(g[1], -1000);
}

#[test]
fn dynamic_range_preservation_caps_at_thirty_percent() {
    let reference = profile(&[10, 0, 0, 0, 0, 0, 0, 0, 0, 0], 1000, 5_000);
    let input = profile(&[0; 10], 1000, 10_000);
    let mut cfg = plain_config(1000, 20_000);
    cfg.preserve_dynamics = true;
    let r = match_profiles(&reference, &input, &cfg).unwrap();
    // Ratio 0.5 asks for 50% less; capped at 30%.
    assert_eq!(r.correction_profile.bands[0].gain_db, 9000 * 7 / 10);
    assert_eq!(r.correction_profile.bands[1].gain_db, -700);
    let reference = profile(&[10, 0, 0, 0, 0, 0, 0, 0, 0, 0], 1000, 9_000);
    let r = match_profiles(&reference, &input, &cfg).unwrap();
    assert_eq!(r.correction_profile.bands[0].gain_db, 8100);
}

#[test]
fn default_match_config() {
    let c = MatchConfig::default();
    assert_eq!(c.intensity, 700);
    assert_eq!(c.max_correction, 6000);
    assert_eq!(c.smoothing_factor, 500);
    assert!(c.use_psychoacoustic && c.preserve_dynamics);
}

#[test]
fn empty_profiles_are_refused() {
    let p = profile(&[], 1000, 20_000);
    assert_eq!(match_profiles(&p, &p, &MatchConfig::default()).unwrap_err(), MatchError::NoBands);
}

#[test]
fn swapping_profiles_negates_the_curve() {
    let a = profile(&[1, 0, 3, -7, 2, 5, 0, -1, 4, 2], 700, 20_000);
    let mut b = profile(&[0, 2, -1, 0, 6, 0, 3, 1, -2, 0], 900, 10_000);
    b.bands[0].gain_db = 1;
    let mut cfg = MatchConfig::default();
    cfg.preserve_dynamics = false;
    let ab = gains(&match_profiles(&a, &b, &cfg).unwrap().correction_profile);
    let ba = gains(&match_profiles(&b, &a, &cfg).unwrap().correction_profile);
    assert!(ab.iter().zip(&ba).all(|(x, y)| *x == -*y));
    assert!(ab.iter().any(|&g| g != 0));
}

#[test]
fn scaling_rounds_towards_zero() {
    // One millidecibel at intensity 0.7 rounds to 0 on both sides.
    let mut a = profile(&[0, 0], 1000, 20_000);
    a.bands[0].gain_db = 1;
    let b = profile(&[0, 0], 1000, 20_000);
    let cfg = plain_config(700, 6000);
    let ab = gains(&match_profiles(&a, &b, &cfg).unwrap().correction_profile);
    let ba = gains(&match_profiles(&b, &a, &cfg).unwrap().correction_profile);
    assert_eq!(ab, vec![0, 0]);
    assert_eq!(ba, vec![0, 0]);
}

fn two_bands(f0: u64, f1: u64, g0: i64, g1: i64) -> EQProfile {
    let band = |f: u64, g: i64| FrequencyBand { frequency: f, gain_db: g, bandwidth: f * 23 / 100, confidence: 1000 };
    EQProfile {
        bands: vec![band(f0, g0), band(f1, g1)],
        overall_loudness: 0,
        dynamic_range: 10_000,
        spectral_centroid: 0,
        spectral_rolloff: 0,
    }
}

#[test]
fn slope_uses_the_logarithm_of_the_ratio() {
    // A 3 dB step from 1000 Hz to 1442 Hz is 5.7 dB per octave: not steep.
    let reference = two_bands(1_000_000, 1_442_000, -1500, 1500);
    let input = two_bands(1_000_000, 1_442_000, 0, 0);
    let r = match_profiles(&reference, &input, &plain_config(1000, 20_000)).unwrap();
    assert_eq!(gains(&r.correction_profile), vec![-1500, 1500]);
    assert!(r.warnings.is_empty());
    assert_eq!(r.quality_score, 850);
}

#[test]
fn third_octave_slope_is_measured_exactly() {
    // 2 dB from 1000 Hz to 1270 Hz is 5.8 dB per octave: not steep.
    let input = two_bands(1_000_000, 1_270_000, 0, 0);
    let reference = two_bands(1_000_000, 1_270_000, -1000, 1000);
    let r = match_profiles(&reference, &input, &plain_config(1000, 20_000)).unwrap();
    assert!(r.warnings.is_empty());
    // 2.1 dB from 1000 Hz to 1250 Hz is 6.5 dB per octave: steep.
    let input = two_bands(1_000_000, 1_250_000, 0, 0);
    let reference = two_bands(1_000_000, 1_250_000, -1050, 1050);
    let r = match_profiles(&reference, &input, &plain_config(1000, 20_000)).unwrap();
    match &r.warnings[..] {
        [MatchWarning::SteepSlope { gain_step, octave_span, .. }] => {
            assert_eq!(*gain_step, 2100);
            // 4096 * log2(1.25) = 1318.6
            assert!((1317..=1318).contains(octave_span));
        }
        other => panic!("unexpected warnings {:?}", other),
    }
}
