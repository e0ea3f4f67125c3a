use reeg::artifact::{remove_tms_pulse, rm_interp_tms_pulse};
use reeg::{EEGData, EEGError, EEGInfo, Markers};

fn info(sfreq: i32, num_ch: i32) -> EEGInfo {
    EEGInfo {
        num_ch,
        ch_namesx: Vec::new(),
        ch_names: Vec::new(),
        sfreq,
        data_orientation: String::new(),
        binary_format: String::new(),
        sampling_interval_in: String::new(),
        sampling_interval: 0,
    }
}

#[test]
fn zeroing_scenario_1khz_marker_mid() {
    // 1 channel, 5000 samples all 100, marker at sample 2500, cuts of
    // 10 ms on each side at 1000 Hz: samples [2490, 2510) become zero,
    // everything else stays 100.
    let data = EEGData { data: vec![vec![100i16; 5000]] };
    let markers = Markers { n_markers: 1, markers: vec![2_500_000] };
    let out = remove_tms_pulse(10, 10, &markers, &info(1000, 1), &data).unwrap();
    assert_eq!(out.data.len(), 1);
    assert_eq!(out.data[0].len(), 5000);
    for j in 0..5000 {
        if (2490..2510).contains(&j) {
            assert_eq!(out.data[0][j], 0, "sample {} should be zeroed", j);
        } else {
            assert_eq!(out.data[0][j], 100, "sample {} should be unchanged", j);
        }
    }
}

#[test]
fn zeroing_covers_all_channels_and_clips() {
    // Marker so close to the start that the window clips at 0.
    let data = EEGData { data: vec![vec![7i16; 10], vec![-3i16; 10]] };
    let markers = Markers { n_markers: 1, markers: vec![1_000] };
    // 3 ms back and 2 ms forward at 1000 Hz: window [max(1-3,0), 1+2) = [0, 3).
    let out = remove_tms_pulse(3, 2, &markers, &info(1000, 2), &data).unwrap();
    for c in 0..2 {
        for j in 0..10 {
            let expected = if j < 3 { 0 } else { data.data[c][j] };
            assert_eq!(out.data[c][j], expected);
        }
    }
}

#[test]
fn zeroing_empty_window_changes_nothing() {
    let data = EEGData { data: vec![vec![5i16; 8]] };
    let markers = Markers { n_markers: 1, markers: vec![4_000] };
    let out = remove_tms_pulse(0, 0, &markers, &info(1000, 1), &data).unwrap();
    assert_eq!(out.data[0], vec![5i16; 8]);
}

#[test]
fn zeroing_overlapping_markers() {
    let data = EEGData { data: vec![(0..20).map(|v| v as i16).collect()] };
    let markers = Markers { n_markers: 2, markers: vec![5_000, 7_000] };
    // 2 ms on each side: windows [3,7) and [5,9), union [3,9).
    let out = remove_tms_pulse(2, 2, &markers, &info(1000, 1), &data).unwrap();
    for j in 0..20 {
        let expected = if (3..9).contains(&j) { 0 } else { j as i16 };
        assert_eq!(out.data[0][j], expected);
    }
}

#[test]
fn zeroing_windows_follow_subsample_markers() {
    // Marker at 2.5 samples, 0.4-sample cuts at 200 Hz: the window is
    // [round(2.1), round(2.9)) = [2, 3), so exactly sample 2 is zeroed.
    let data = EEGData { data: vec![vec![100i16; 10]] };
    let markers = Markers { n_markers: 1, markers: vec![2_500] };
    let out = remove_tms_pulse(2, 2, &markers, &info(200, 1), &data).unwrap();
    let mut expected = vec![100i16; 10];
    expected[2] = 0;
    assert_eq!(out.data[0], expected);

    // Marker at 2.4 samples, 0.5-sample cuts at 500 Hz: the window is
    // [round(1.9), round(2.9)) = [2, 3); sample 1 is left untouched.
    let markers = Markers { n_markers: 1, markers: vec![2_400] };
    let out = remove_tms_pulse(1, 1, &markers, &info(500, 1), &data).unwrap();
    assert_eq!(out.data[0], expected);
}

#[test]
fn zeroing_empty_recording_passes_through() {
    let data = EEGData { data: vec![] };
    let markers = Markers { n_markers: 0, markers: vec![] };
    let out = remove_tms_pulse(1, 1, &markers, &info(1000, 0), &data).unwrap();
    assert_eq!(out.data.len(), 0);
}

#[test]
fn interp_bridges_gap_with_rounded_line() {
    // Anchors 0 (at sample 0) and 10 (at sample 4), gap [1, 4): the bridge
    // takes round(10 * t / 4) for t = 1, 2, 3 with halves up.
    let data = EEGData { data: vec![vec![0i16, 999, 999, 999, 10]] };
    let markers = Markers { n_markers: 1, markers: vec![2_000] };
    let out = rm_interp_tms_pulse(1, 2, &markers, &info(1000, 1), &data).unwrap();
    assert_eq!(out.data[0], vec![0, 3, 5, 8, 10]);
}

#[test]
fn interp_keeps_boundary_samples() {
    let data = EEGData { data: vec![vec![-40i16, 600, 600, 600, 600, -20, 11]] };
    let markers = Markers { n_markers: 1, markers: vec![3_000] };
    // Window [1, 5): anchors at samples 0 and 5 stay untouched.
    let out = rm_interp_tms_pulse(2, 2, &markers, &info(1000, 1), &data).unwrap();
    assert_eq!(out.data[0][0], -40);
    assert_eq!(out.data[0][5], -20);
    assert_eq!(out.data[0][6], 11);
    // Interior samples lie between the two anchor values.
    for j in 1..5 {
        assert!((-40..=-20).contains(&out.data[0][j]), "sample {} = {}", j, out.data[0][j]);
    }
    // And consecutive differences are bounded by the slope plus one unit:
    // |y1 - y0| / d + 1 = 20 / 5 + 1 = 5.
    for j in 0..6 {
        let d = (out.data[0][j + 1] as i32 - out.data[0][j] as i32).abs();
        assert!(d <= 5 || j == 5, "step at {} too large: {}", j, d);
    }
}

#[test]
fn interp_falls_back_to_zero_at_recording_edge() {
    // Window [0, 3) touches the start: no left anchor, so the gap is zeroed.
    let data = EEGData { data: vec![vec![50i16, 50, 50, 50, 50]] };
    let markers = Markers { n_markers: 1, markers: vec![1_000] };
    let out = rm_interp_tms_pulse(3, 2, &markers, &info(1000, 1), &data).unwrap();
    assert_eq!(out.data[0], vec![0, 0, 0, 50, 50]);
}

#[test]
fn interp_later_marker_sees_earlier_bridge() {
    // First marker bridges [1, 3) between anchors 0 and 100; the second
    // bridges [3, 5) between the (already bridged) sample 2 and sample 5.
    let data = EEGData { data: vec![vec![0i16, 500, 500, 500, 500, 100, 100]] };
    let markers = Markers { n_markers: 2, markers: vec![2_000, 4_000] };
    let out = rm_interp_tms_pulse(1, 1, &markers, &info(1000, 1), &data).unwrap();
    // First cut [1,3): anchors row[0]=0, row[3]=500, d=3: round(500/3)=167,
    // round(1000/3)=333.
    // Second cut [3,5): anchors row[2]=333, row[5]=100, d=3:
    // round(333 + (100-333)/3) = round(255.33) = 255,
    // round(333 + 2*(100-333)/3) = round(177.67) = 178.
    assert_eq!(out.data[0], vec![0, 167, 333, 255, 178, 100, 100]);
}

#[test]
fn error_bounds_on_empty_channel_fetch() {
    let data = EEGData { data: vec![] };
    assert_eq!(reeg::get_one_channel(0, &data), Err(EEGError::BoundsError));
    let full = EEGData { data: vec![vec![1i16, 2], vec![3, 4]] };
    assert_eq!(reeg::get_one_channel(1, &full), Ok(vec![3i16, 4]));
}

#[test]
fn error_shape_on_ragged_rows() {
    let r = EEGData::from_rows(vec![vec![1i16, 2], vec![3]]);
    assert_eq!(r.err(), Some(EEGError::ShapeError));
    let ok = EEGData::from_rows(vec![vec![1i16, 2], vec![3, 4]]).unwrap();
    assert_eq!(ok.data, vec![vec![1i16, 2], vec![3, 4]]);
}
