use sci_rs::signal::filter::design::{
    butter_dyn, DigitalFilter, FilterBandType, FilterOutputType, SosFormatFilter,
};
use sci_rs::signal::filter::sosfiltfilt_dyn;

use reeg::filter::{design_butter_hp, design_butter_lp, filter_assemble, ButterDesign, FilterBand};
use reeg::{EEGData, EEGError};

#[test]
fn design_validates_cutoff_against_nyquist() {
    // 40 Hz low-pass at 1000 Hz is fine.
    let d = design_butter_lp(2, 40_000, 1000).unwrap();
    assert_eq!(
        d,
        ButterDesign { order: 2, cutoff_milli_hz: 40_000, sfreq: 1000, band: FilterBand::Lowpass }
    );
    // A cutoff at or above Nyquist (500 Hz) is a configuration error.
    assert_eq!(design_butter_lp(2, 500_000, 1000).err(), Some(EEGError::ConfigurationError));
    assert_eq!(design_butter_lp(2, 700_000, 1000).err(), Some(EEGError::ConfigurationError));
    // Just below Nyquist is still accepted.
    assert!(design_butter_lp(2, 499_999, 1000).is_ok());
    // A zero cutoff or zero order is a configuration error.
    assert_eq!(design_butter_lp(2, 0, 1000).err(), Some(EEGError::ConfigurationError));
    assert_eq!(design_butter_lp(0, 40_000, 1000).err(), Some(EEGError::ConfigurationError));
}

#[test]
fn design_highpass_keeps_subhertz_cutoffs() {
    // 0.1 Hz high-pass, the usual drift-removal corner.
    let d = design_butter_hp(2, 100, 500).unwrap();
    assert_eq!(
        d,
        ButterDesign { order: 2, cutoff_milli_hz: 100, sfreq: 500, band: FilterBand::Highpass }
    );
    assert_eq!(design_butter_hp(2, 250_000, 500).err(), Some(EEGError::ConfigurationError));
}

#[test]
fn assemble_enforces_input_shape() {
    let rows = vec![vec![1i16, 2, 3], vec![4, 5, 6]];
    let out = filter_assemble(2, 3, rows.clone()).unwrap();
    assert_eq!(out.data, rows);
    assert_eq!(filter_assemble(3, 3, rows.clone()).err(), Some(EEGError::ShapeError));
    assert_eq!(filter_assemble(2, 4, rows).err(), Some(EEGError::ShapeError));
}

/// The zero-phase cascade a design stands for, applied to one channel:
/// promote to floating point, filter forward and backward, round back.
fn run_filtfilt(design: &ButterDesign, channel: &[i16]) -> Vec<i16> {
    let band = match design.band {
        FilterBand::Lowpass => FilterBandType::Lowpass,
        FilterBand::Highpass => FilterBandType::Highpass,
    };
    let filter = butter_dyn(
        design.order,
        vec![design.cutoff_milli_hz as f64 / 1000.0],
        Some(band),
        Some(false),
        Some(FilterOutputType::Sos),
        Some(design.sfreq as f64),
    );
    let DigitalFilter::Sos(SosFormatFilter { sos }) = filter else {
        panic!("butterworth design did not yield second-order sections");
    };
    let filtered: Vec<f64> = sosfiltfilt_dyn(channel.iter().map(|s| *s as f64), &sos);
    filtered.into_iter().map(|s| s.round() as i16).collect()
}

#[test]
fn lowpass_filter_bank_has_unity_gain_on_constants() {
    // A constant channel is pure DC: the zero-phase low-pass passband gain
    // there is one, so the channel comes back unchanged within rounding.
    let design = design_butter_lp(2, 40_000, 1000).unwrap();
    let channel = vec![1000i16; 600];
    let out = run_filtfilt(&design, &channel);
    let shaped = filter_assemble(1, 600, vec![out]).unwrap();
    for (j, &v) in shaped.data[0].iter().enumerate() {
        assert!((v as i32 - 1000).abs() <= 1, "sample {} drifted to {}", j, v);
    }
}

#[test]
fn highpass_filter_bank_removes_constants() {
    // The same constant channel is entirely below a high-pass corner: the
    // passband gain at DC is zero, so the channel collapses to zero within
    // rounding.
    let design = design_butter_hp(2, 1_000, 1000).unwrap();
    let channel = vec![1000i16; 600];
    let out = run_filtfilt(&design, &channel);
    for (j, &v) in out.iter().enumerate() {
        assert!((v as i32).abs() <= 1, "sample {} kept amplitude {}", j, v);
    }
}
