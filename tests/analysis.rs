use eq_matcher::analyzer::{
    bin_frequencies, AnalysisConfig, AnalysisError, SegmentPlan, WindowType,
};
use eq_matcher::extractor::{
    calculate_dynamic_range, extract_band_info, extract_eq_profile, FrequencySpectrum,
    PowerDescriptors,
};
use eq_matcher::profile::FrequencyBand;

fn config(fft_size: usize, overlap: u64) -> AnalysisConfig {
    AnalysisConfig {
        fft_size,
        window_type: WindowType::Hann,
        overlap,
        frequency_bands: vec![1_000_000],
    }
}

#[test]
fn default_analysis_config() {
    let c = AnalysisConfig::default();
    assert_eq!(c.fft_size, 8192);
    assert_eq!(c.window_type, WindowType::BlackmanHarris);
    assert_eq!(c.overlap, 750);
    assert_eq!(c.frequency_bands.len(), 10);
    assert_eq!(c.frequency_bands[0], 31_500);
    assert_eq!(c.frequency_bands[9], 16_000_000);
}

#[test]
fn segment_plan_of_default_config() {
    let c = AnalysisConfig::default();
    let p = c.segment_plan(16_384).unwrap();
    assert_eq!(p, SegmentPlan { hop: 2048, num_windows: 5, bin_count: 4097 });
    let p = c.segment_plan(8192).unwrap();
    assert_eq!(p.num_windows, 1);
    let p = c.segment_plan(10_239).unwrap();
    assert_eq!(p.num_windows, 1);
}

#[test]
fn spectrum_length_is_half_the_transform_plus_one() {
    for &n in &[16usize, 64, 1024, 8192] {
        let p = config(n, 500).segment_plan(4 * n).unwrap();
        assert_eq!(p.bin_count, n / 2 + 1);
        assert_eq!(bin_frequencies(48_000, n).len(), n / 2 + 1);
        let s = FrequencySpectrum::from_levels(vec![0; n / 2 + 1], 48_000, n);
        assert_eq!(s.frequencies.len(), n / 2 + 1);
    }
}

#[test]
fn buffer_shorter_than_a_window_is_refused() {
    let r = AnalysisConfig::default().segment_plan(8191);
    assert_eq!(r, Err(AnalysisError::TooShort { samples: 8191, fft_size: 8192 }));
    let r = AnalysisConfig::default().segment_plan(0);
    assert_eq!(r, Err(AnalysisError::TooShort { samples: 0, fft_size: 8192 }));
}

#[test]
fn bad_configurations_are_refused() {
    assert_eq!(
        config(1000, 500).segment_plan(5000),
        Err(AnalysisError::UnsupportedFftSize { fft_size: 1000 })
    );
    assert_eq!(
        config(8, 500).segment_plan(5000),
        Err(AnalysisError::UnsupportedFftSize { fft_size: 8 })
    );
    assert_eq!(
        config(1024, 1000).segment_plan(5000),
        Err(AnalysisError::InvalidOverlap { overlap: 1000 })
    );
    assert_eq!(
        config(1024, 900).segment_plan(5000),
        Err(AnalysisError::InvalidOverlap { overlap: 900 })
    );
    let mut c = config(1024, 0);
    c.frequency_bands.clear();
    assert_eq!(c.segment_plan(5000), Err(AnalysisError::NoBands));
}

#[test]
fn bin_frequencies_step_by_rate_over_size() {
    let f = bin_frequencies(44_100, 16);
    assert_eq!(f.len(), 9);
    assert_eq!(f[0], 0);
    assert_eq!(f[1], 2_756_250);
    assert_eq!(f[8], 22_050_000);
}

#[test]
fn window_series() {
    assert_eq!(WindowType::default(), WindowType::BlackmanHarris);
    assert_eq!(WindowType::Hann.cosine_series(), vec![500_000_000, 500_000_000]);
    assert_eq!(WindowType::Hamming.cosine_series(), vec![540_000_000, 460_000_000]);
    assert_eq!(WindowType::BlackmanHarris.cosine_series().len(), 4);
    assert_eq!(WindowType::FlatTop.cosine_series()[2], 277_263_158);
    // Hann and Hamming reach 1 at the centre: a0 + a1.
    let h = WindowType::Hamming.cosine_series();
    assert_eq!(h[0] + h[1], 1_000_000_000);
}

fn spectrum() -> FrequencySpectrum {
    FrequencySpectrum {
        frequencies: vec![500_000, 900_000, 1_000_000, 1_100_000, 2_000_000],
        magnitudes: vec![-30_000, -10_000, -12_000, -14_000, -50_000],
        sample_rate: 48_000,
    }
}

#[test]
fn band_takes_mean_level_and_spread() {
    let b = extract_band_info(&spectrum(), 1_000_000);
    assert_eq!(
        b,
        FrequencyBand { frequency: 1_000_000, gain_db: -12_000, bandwidth: 230_000, confidence: 833 }
    );
}

#[test]
fn band_with_one_bin_is_fully_trusted() {
    let b = extract_band_info(&spectrum(), 2_000_000);
    assert_eq!(b.gain_db, -50_000);
    assert_eq!(b.confidence, 1000);
}

#[test]
fn empty_band_reads_no_data() {
    let b = extract_band_info(&spectrum(), 10_000_000);
    assert_eq!(
        b,
        FrequencyBand { frequency: 10_000_000, gain_db: -80_000, bandwidth: 2_300_000, confidence: 0 }
    );
}

#[test]
fn profile_follows_configured_bands() {
    let mut c = config(16, 0);
    c.frequency_bands = vec![10_000_000, 1_000_000, 2_000_000];
    let power = PowerDescriptors {
        overall_loudness: -15_000,
        spectral_centroid: 1_200_000,
        spectral_rolloff: 1_900_000,
    };
    let p = extract_eq_profile(&spectrum(), &c, &power).unwrap();
    let freqs: Vec<u64> = p.bands.iter().map(|b| b.frequency).collect();
    assert_eq!(freqs, vec![10_000_000, 1_000_000, 2_000_000]);
    assert_eq!(p.bands[0].gain_db, -80_000);
    assert_eq!(p.bands[1].gain_db, -12_000);
    assert_eq!(p.overall_loudness, -15_000);
    assert_eq!(p.spectral_centroid, 1_200_000);
    assert_eq!(p.spectral_rolloff, 1_900_000);
    // Five levels: both percentiles index 4 and 0 of the sorted levels.
    assert_eq!(p.dynamic_range, -10_000 - -50_000);
}

#[test]
fn dynamic_range_between_percentiles() {
    let m: Vec<i64> = (0..20).rev().map(|i| i * 1000).collect();
    // Twenty levels: indices 19 and 1 of the ascending order.
    assert_eq!(calculate_dynamic_range(&m), 19_000 - 1000);
    assert_eq!(calculate_dynamic_range(&vec![-5000]), 0);
}

#[test]
fn window_values_at_edge_and_centre() {
    let edge = |k: usize| vec![1_000_000_000i64; k];
    let centre = |k: usize| (1..=k).map(|j| if j % 2 == 1 { -1_000_000_000i64 } else { 1_000_000_000 }).collect::<Vec<i64>>();
    assert_eq!(WindowType::Hann.evaluate(&edge(1)), 0);
    assert_eq!(WindowType::Hann.evaluate(&centre(1)), 1_000_000_000);
    assert_eq!(WindowType::Hann.evaluate(&vec![0]), 500_000_000);
    assert_eq!(WindowType::Hamming.evaluate(&edge(1)), 80_000_000);
    assert_eq!(WindowType::Hamming.evaluate(&centre(1)), 1_000_000_000);
    assert_eq!(WindowType::BlackmanHarris.evaluate(&edge(3)), 60_000);
    assert_eq!(WindowType::BlackmanHarris.evaluate(&centre(3)), 1_000_000_000);
    assert_eq!(WindowType::FlatTop.evaluate(&centre(4)), 1_000_000_003);
}

#[test]
fn window_values_stay_in_bounds() {
    for w in [WindowType::Hann, WindowType::Hamming, WindowType::BlackmanHarris, WindowType::FlatTop] {
        let terms = w.cosine_series().len() - 1;
        for i in 0..64 {
            let x = i as f64 / 64.0;
            let c: Vec<i64> = (1..=terms)
                .map(|k| ((2.0 * std::f64::consts::PI * k as f64 * x).cos() * 1e9).round() as i64)
                .collect();
            let v = w.evaluate(&c);
            assert!(v >= -1_000_000_000 && v <= 1_000_000_003);
            if matches!(w, WindowType::Hann | WindowType::Hamming) {
                assert!(v >= 0);
            }
        }
    }
}

#[test]
fn empty_band_list_is_refused_at_extraction() {
    let mut c = config(16, 0);
    c.frequency_bands.clear();
    let power = PowerDescriptors { overall_loudness: 0, spectral_centroid: 0, spectral_rolloff: 0 };
    assert_eq!(extract_eq_profile(&spectrum(), &c, &power).unwrap_err(), AnalysisError::NoBands);
}
