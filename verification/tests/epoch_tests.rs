use reeg::epochs::{epoch_eeg, evoked_eeg};
use reeg::{EEGData, EEGError, EEGInfo, EpochsData, Markers};

fn info(sfreq: i32, num_ch: i32) -> EEGInfo {
    EEGInfo {
        num_ch,
        ch_namesx: Vec::new(),
        ch_names: Vec::new(),
        sfreq,
        data_orientation: String::new(),
        binary_format: String::new(),
        sampling_interval_in: String::new(),
        sampling_interval: 0,
    }
}

#[test]
fn epoch_scenario_one_second_window_at_500hz() {
    // tmin = tmax = 1.0 s at 500 Hz, marker at sample 5000 of a
    // 10000-sample recording: exactly one epoch of length 1000,
    // 500 samples before and 500 after the marker.
    let row: Vec<i16> = (0..10000).map(|v| (v % 1000) as i16).collect();
    let data = EEGData { data: vec![row.clone()] };
    let markers = Markers { n_markers: 1, markers: vec![5_000_000] };
    let epochs = epoch_eeg(1000, 1000, &info(500, 1), &data, &markers).unwrap();
    assert_eq!(epochs.len(), 1);
    assert_eq!(epochs[0].len(), 1);
    assert_eq!(epochs[0][0].len(), 1000);
    assert_eq!(epochs[0][0][..], row[4500..5500]);
}

#[test]
fn epoch_rejects_truncated_windows() {
    // The same window around a marker 100 samples from the edge would be
    // truncated; it must be rejected, not clipped.
    let data = EEGData { data: vec![vec![1i16; 10000]] };
    let markers = Markers {
        n_markers: 3,
        markers: vec![100_000, 5_000_000, 9_990_000],
    };
    let epochs = epoch_eeg(1000, 1000, &info(500, 1), &data, &markers).unwrap();
    assert_eq!(epochs.len(), 1, "only the centered marker fits a full window");
}

#[test]
fn epoch_keeps_marker_order_and_rounds_positions() {
    let row: Vec<i16> = (0..100).map(|v| v as i16).collect();
    let data = EEGData { data: vec![row] };
    // Markers at 10.4 and 50.5 samples, 2 ms (2 samples) on each side at
    // 1000 Hz: the windows start at round(8.4) = 8 and round(48.5) = 49
    // and share the length round(4.0) = 4, giving [8, 12) and [49, 53).
    let markers = Markers { n_markers: 2, markers: vec![10_400, 50_500] };
    let epochs = epoch_eeg(2, 2, &info(1000, 1), &data, &markers).unwrap();
    assert_eq!(epochs.len(), 2);
    assert_eq!(epochs[0][0], vec![8i16, 9, 10, 11]);
    assert_eq!(epochs[1][0], vec![49i16, 50, 51, 52]);
}

#[test]
fn epoch_windows_share_one_jointly_rounded_length() {
    // tmin = tmax = 1 ms at 500 Hz is 0.5 samples each way: the shared
    // window length is round(1.0) = 1 sample, and a marker at 2.4 samples
    // starts its window at round(1.9) = 2.
    let row: Vec<i16> = (0..10).map(|v| v as i16).collect();
    let data = EEGData { data: vec![row] };
    let markers = Markers { n_markers: 1, markers: vec![2_400] };
    let epochs = epoch_eeg(1, 1, &info(500, 1), &data, &markers).unwrap();
    assert_eq!(epochs.len(), 1);
    assert_eq!(epochs[0][0], vec![2i16]);
}

#[test]
fn epoch_empty_inputs_give_empty_tensor() {
    let empty = EEGData { data: vec![] };
    let markers = Markers { n_markers: 1, markers: vec![5_000_000] };
    assert_eq!(epoch_eeg(1, 1, &info(1000, 0), &empty, &markers).unwrap().len(), 0);

    let data = EEGData { data: vec![vec![1i16; 100]] };
    let none = Markers { n_markers: 0, markers: vec![] };
    assert_eq!(epoch_eeg(1, 1, &info(1000, 1), &data, &none).unwrap().len(), 0);
}

#[test]
fn tensor_construction_rejects_ragged_epochs() {
    let ragged = vec![
        vec![vec![1i16, 2], vec![3, 4]],
        vec![vec![5i16, 6]],
    ];
    let r = EpochsData::from_tensor(ragged, vec![], 0, 0);
    assert!(matches!(r, Err(EEGError::ShapeError)));

    let ragged_rows = vec![
        vec![vec![1i16, 2], vec![3, 4]],
        vec![vec![5i16, 6], vec![7]],
    ];
    let r = EpochsData::from_tensor(ragged_rows, vec![], 0, 0);
    assert!(matches!(r, Err(EEGError::ShapeError)));

    let cub = vec![
        vec![vec![1i16, 2], vec![3, 4]],
        vec![vec![5i16, 6], vec![7, 8]],
    ];
    let ok = EpochsData::from_tensor(cub.clone(), vec![String::from("a")], 3, 4).unwrap();
    assert_eq!(ok.epochs, cub);
    assert_eq!(ok.tmin, 3);
    assert_eq!(ok.tmax, 4);
}

#[test]
fn evoked_is_exact_mean_as_sum_and_count() {
    let epochs = EpochsData {
        epochs: vec![
            vec![vec![1i16, 3], vec![-2, 0]],
            vec![vec![5i16, 7], vec![4, -6]],
        ],
        ch_names: vec![String::from("C3"), String::from("C4")],
        tmin: 10,
        tmax: 20,
    };
    let evoked = evoked_eeg(&epochs, &info(1000, 2)).unwrap();
    assert_eq!(evoked.n_epochs, 2);
    assert_eq!(evoked.evoked, vec![vec![6i64, 10], vec![2, -6]]);
    assert_eq!(evoked.ch_names, vec![String::from("C3"), String::from("C4")]);
    assert_eq!(evoked.tmin, 10);
    assert_eq!(evoked.tmax, 20);
    // The floating-point mean is the sum over the count, exactly.
    let mean = evoked.evoked[0][1] as f64 / evoked.n_epochs as f64;
    assert_eq!(mean, 5.0);
}

#[test]
fn evoked_of_no_epochs_is_explicit_empty() {
    let epochs = EpochsData {
        epochs: vec![],
        ch_names: vec![],
        tmin: 0,
        tmax: 0,
    };
    let evoked = evoked_eeg(&epochs, &info(1000, 0)).unwrap();
    assert_eq!(evoked.n_epochs, 0);
    assert_eq!(evoked.evoked.len(), 0);
}

#[test]
fn evoked_shape_follows_epoch_shape() {
    // Shape invariant: evoked(epoch(...)) is (channel_count, window_length);
    // an empty marker set gives (0, 0).
    let data = EEGData { data: vec![vec![10i16; 1000], vec![20i16; 1000], vec![30i16; 1000]] };
    let markers = Markers { n_markers: 2, markers: vec![300_000, 600_000] };
    let tensor = epoch_eeg(100, 100, &info(1000, 3), &data, &markers).unwrap();
    let epochs = EpochsData { epochs: tensor, ch_names: vec![], tmin: 100, tmax: 100 };
    let evoked = evoked_eeg(&epochs, &info(1000, 3)).unwrap();
    assert_eq!(evoked.evoked.len(), 3);
    for c in 0..3 {
        assert_eq!(evoked.evoked[c].len(), 200);
    }
    assert_eq!(evoked.evoked[1][0], 2 * 20);

    let none = Markers { n_markers: 0, markers: vec![] };
    let empty_tensor = epoch_eeg(100, 100, &info(1000, 3), &data, &none).unwrap();
    let empty_epochs = EpochsData { epochs: empty_tensor, ch_names: vec![], tmin: 100, tmax: 100 };
    let empty_evoked = evoked_eeg(&empty_epochs, &info(1000, 3)).unwrap();
    assert_eq!(empty_evoked.evoked.len(), 0);
    assert_eq!(empty_evoked.n_epochs, 0);
}
