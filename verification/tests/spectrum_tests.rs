use doppler_fit::spectrum::{
    dominant_index, extract_trace, get_frequencies, group_by, truncate_half, SUM_STEP,
};

fn spectrogram_total(s: &Vec<Vec<u64>>) -> u64 {
    s.iter().map(|f| f.iter().sum::<u64>()).sum()
}

#[test]
fn group_size_one_is_identity() {
    let mut s = vec![vec![1u64, 2, 3], vec![4, 5, 6], vec![7, 8, 9]];
    let original = s.clone();
    group_by(&mut s, 1);
    assert_eq!(s, original);
}

#[test]
fn group_by_sums_runs_elementwise() {
    let mut s = vec![
        vec![1u64, 10],
        vec![2, 20],
        vec![3, 30],
        vec![4, 40],
        vec![5, 50],
    ];
    group_by(&mut s, 2);
    assert_eq!(s, vec![vec![3u64, 30], vec![7, 70], vec![5, 50]]);
}

#[test]
fn group_by_conserves_total_energy() {
    let mut s = vec![
        vec![1u64, 2, 3],
        vec![10, 20, 30],
        vec![100, 200, 300],
        vec![7, 7, 7],
        vec![9, 0, 1],
    ];
    let before = spectrogram_total(&s);
    group_by(&mut s, 3);
    assert_eq!(s.len(), 2);
    assert_eq!(spectrogram_total(&s), before);
}

#[test]
fn group_by_whole_spectrogram_single_group() {
    let mut s = vec![vec![1u64, 2], vec![3, 4]];
    group_by(&mut s, 10);
    assert_eq!(s, vec![vec![4u64, 6]]);
}

#[test]
fn truncate_half_keeps_low_bins() {
    let mut s = vec![vec![1u64, 2, 3, 4], vec![5, 6, 7, 8, 9]];
    truncate_half(&mut s);
    assert_eq!(s, vec![vec![1u64, 2], vec![5, 6]]);
}

#[test]
fn single_spike_window_one_returns_spike_bin() {
    let mut f = vec![0u64; 16];
    f[7] = 1000;
    assert_eq!(dominant_index(&f, 1), 7);
}

#[test]
fn single_spike_wide_window_returns_first_covering_bin() {
    // with half-width 5, the first bin whose window [i - 5, i + 5) reaches
    // bin 7 is bin 3, and ties resolve to the first
    let mut f = vec![0u64; 16];
    f[7] = 1000;
    assert_eq!(dominant_index(&f, 5), 3);
}

#[test]
fn zero_half_width_windows_are_empty() {
    let mut f = vec![0u64; 8];
    f[5] = 42;
    assert_eq!(dominant_index(&f, 0), 0);
}

#[test]
fn all_zero_frame_returns_bin_zero() {
    let f = vec![0u64; 12];
    assert_eq!(dominant_index(&f, 4), 0);
}

#[test]
fn dominant_index_prefers_denser_region() {
    // bins 0..3 hold 4 units spread out; bins 8..10 hold 9 units bunched
    let f = vec![1u64, 1, 1, 1, 0, 0, 0, 0, 3, 3, 3, 0];
    // with half-width 2 the best window is the one around the dense bunch
    let r = dominant_index(&f, 2);
    assert_eq!(r, 9);
}

#[test]
fn extract_trace_runs_the_whole_extractor() {
    // 4 frames, 32 bins each; the junk above the Nyquist bin (index 16) is
    // dropped by truncation, the spikes below it survive grouping
    let mut frames = vec![vec![0u64; 32]; 4];
    for t in 0..4 {
        frames[t][20] = 1_000_000; // above Nyquist: must not matter
    }
    frames[0][8] = 100;
    frames[1][8] = 100;
    frames[2][12] = 50;
    frames[3][12] = 50;
    let trace = extract_trace(frames, 2);
    // a single spike at bin p lands on bin p - SUM_STEP + 1
    assert_eq!(trace, vec![8 - SUM_STEP + 1, 12 - SUM_STEP + 1]);
}

#[test]
fn extract_trace_sums_a_trailing_partial_group() {
    let mut frames = vec![vec![0u64; 8]; 3];
    frames[0][1] = 5;
    frames[1][1] = 5;
    frames[2][2] = 9;
    let trace = extract_trace(frames, 2);
    assert_eq!(trace.len(), 2);
    // bins 1 and 2 both sit inside every window that reaches them, so the
    // scan starts at bin 0 for both grouped frames
    assert_eq!(trace, vec![0, 0]);
}

#[test]
fn get_frequencies_returns_one_index_per_frame() {
    let mut spike0 = vec![0u64; 32];
    spike0[4] = 500;
    let mut spike1 = vec![0u64; 32];
    spike1[20] = 500;
    let s = vec![spike0, spike1];
    let trace = get_frequencies(&s);
    assert_eq!(trace.len(), 2);
    // a single spike at bin p lands on bin p - SUM_STEP + 1 (clipped to 0)
    assert_eq!(trace[0], 0);
    assert_eq!(trace[1], 20 - SUM_STEP + 1);
}
