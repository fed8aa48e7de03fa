use std::collections::HashSet;

use battery_core::{
    aggregate_bins, color_for_status, format_tray_label, split_on_gaps, Double, IntervalBin,
};

fn d(x: f64) -> Double {
    Double::from_bits(x.to_bits())
}

fn ds(v: &[f64]) -> Vec<Double> {
    v.iter().map(|x| d(*x)).collect()
}

#[test]
fn tray_label_charging_shows_signed_wattage() {
    assert_eq!(format_tray_label("Charging", Some(d(15.23)), Some(d(60.0))), "+15.2W");
}

#[test]
fn tray_label_discharging_shows_signed_wattage() {
    assert_eq!(format_tray_label("Discharging", Some(d(8.4)), Some(d(60.0))), "-8.4W");
}

#[test]
fn tray_label_full_shows_100_percent() {
    assert_eq!(format_tray_label("Full", Some(d(0.05)), Some(d(100.0))), "100%");
}

#[test]
fn tray_label_not_charging_falls_back_to_capacity() {
    assert_eq!(format_tray_label("Not charging", Some(d(0.0)), Some(d(80.0))), "80%");
}

#[test]
fn tray_label_no_data_is_blank() {
    assert_eq!(format_tray_label("Unknown", None, None), "");
}

#[test]
fn tray_label_charging_with_null_power_falls_back_to_capacity_not_a_crash() {
    assert_eq!(format_tray_label("Charging", None, Some(d(42.0))), "42%");
}

#[test]
fn tray_label_rounds_half_up() {
    assert_eq!(format_tray_label("Unknown", None, Some(d(42.5))), "43%");
    assert_eq!(format_tray_label("Unknown", None, Some(d(43.5))), "44%");
    assert_eq!(format_tray_label("Unknown", None, Some(d(42.49))), "42%");
}

#[test]
fn split_on_gaps_breaks_at_the_gap() {
    let pts = vec![(0, 0), (1, 1), (2, 2), (3, 3), (4, 4)];
    let ts = ds(&[0.0, 1.0, 2.0, 100.0, 101.0]);
    let chunks = split_on_gaps(&ts, &pts, d(10.0));
    assert_eq!(chunks, vec![vec![(0, 0), (1, 1), (2, 2)], vec![(3, 3), (4, 4)]]);
}

#[test]
fn split_on_gaps_single_chunk_without_a_gap() {
    let pts = vec![(0, 0), (1, 1), (2, 2)];
    let ts = ds(&[0.0, 1.0, 2.0]);
    let chunks = split_on_gaps(&ts, &pts, d(10.0));
    assert_eq!(chunks, vec![pts]);
}

#[test]
fn split_on_gaps_empty_input() {
    let chunks: Vec<Vec<(i32, i32)>> = split_on_gaps(&[], &[], d(10.0));
    assert!(chunks.is_empty());
}

#[test]
fn split_on_gaps_ignores_points_without_a_time() {
    let chunks = split_on_gaps(&ds(&[0.0, 50.0]), &[1, 2, 3, 4], d(10.0));
    assert_eq!(chunks, vec![vec![1], vec![2, 3, 4]]);
    // A gap of exactly the limit is no gap.
    let chunks = split_on_gaps(&ds(&[0.0, 10.0, 20.5]), &[1, 2, 3], d(10.0));
    assert_eq!(chunks, vec![vec![1, 2], vec![3]]);
}

fn bin(capacity: f64, status: &str, timestamp: i64) -> IntervalBin {
    IntervalBin { capacity: d(capacity), status: status.to_string(), timestamp }
}

#[test]
fn aggregate_bins_merges_down_to_max_bins() {
    let data: Vec<IntervalBin> = (0..100).map(|i| bin(i as f64, "Discharging", i)).collect();
    let out = aggregate_bins(&data, 10);
    assert_eq!(out.len(), 10);
}

#[test]
fn aggregate_bins_noop_when_already_small() {
    let data = vec![bin(1.0, "Charging", 0)];
    assert_eq!(aggregate_bins(&data, 10), data);
}

#[test]
fn aggregate_bins_without_a_limit_keeps_all() {
    let data: Vec<IntervalBin> = (0..7).map(|i| bin(i as f64, "Full", i)).collect();
    assert_eq!(aggregate_bins(&data, 0), data);
    assert!(aggregate_bins(&[], 3).is_empty());
}

#[test]
fn aggregate_bins_averages_and_votes() {
    let data = vec![
        bin(10.0, "Charging", 1),
        bin(20.0, "Full", 2),
        bin(30.0, "Discharging", 3),
        bin(40.0, "Discharging", 4),
        bin(0.1, "Charging", 5),
        bin(0.2, "Full", 6),
    ];
    let out = aggregate_bins(&data, 2);
    assert_eq!(out.len(), 2);
    assert_eq!(out[0], bin((10.0 + 20.0 + 30.0) / 3.0, "Discharging", 3));
    assert_eq!(out[1], bin((40.0 + 0.1 + 0.2) / 3.0, "Full", 6));
    let out = aggregate_bins(&data[..2], 1);
    assert_eq!(out, vec![bin(15.0, "Charging", 2)]);
}

/// Where the parts of `n` bins end, in native arithmetic; the last one with the bins.
fn native_ends(n: usize, max_bins: usize) -> Vec<usize> {
    let step = n as f64 / max_bins as f64;
    let mut ends: Vec<usize> = (1..max_bins).map(|i| (i as f64 * step) as usize).collect();
    ends.push(n);
    ends
}

#[test]
fn aggregate_bins_joins_every_bin_in_equal_steps() {
    for (n, max_bins) in
        [(10, 3), (11, 7), (49, 9), (50, 49), (64, 49), (97, 31), (143, 142), (60, 1), (320, 245)]
    {
        let data: Vec<(f64, i64)> = (0..n).map(|i| (i as f64 * 0.3, i as i64)).collect();
        let bins: Vec<IntervalBin> = data.iter().map(|x| bin(x.0, "Full", x.1)).collect();
        let got = aggregate_bins(&bins, max_bins);
        let mut expected = Vec::new();
        let mut start = 0;
        for end in native_ends(n, max_bins) {
            let chunk = &data[start..end];
            let sum: f64 = chunk.iter().map(|x| x.0).sum();
            expected.push(bin(sum / chunk.len() as f64, "Full", chunk.last().unwrap().1));
            start = end;
        }
        assert_eq!(got, expected);
        assert_eq!(aggregate_bins(&got, max_bins), got);
    }
    // A step is rounded, and so is where it leads.
    let data: Vec<IntervalBin> = (0..320).map(|i| bin(1.0, "Full", i)).collect();
    assert_eq!(aggregate_bins(&data, 245)[48].timestamp, 62);
}

#[test]
fn aggregate_bins_keeps_the_newest() {
    let data: Vec<IntervalBin> = (0..64).map(|i| bin(i as f64, "Full", i)).collect();
    let out = aggregate_bins(&data, 49);
    assert_eq!(out.len(), 49);
    assert_eq!(out[48].timestamp, 63);
    for n in [2, 3, 7, 12] {
        let data: Vec<IntervalBin> = (0..n).map(|i| bin(1.0, "Full", i)).collect();
        for max_bins in 1..n {
            let out = aggregate_bins(&data, max_bins as usize);
            assert_eq!(out.len() as i64, max_bins);
            assert_eq!(out.last().unwrap().timestamp, n - 1);
        }
    }
}

#[test]
fn color_for_status_known_states_are_distinct() {
    let statuses = ["Charging", "Discharging", "Full", "Not charging", "Unknown"];
    let colors: HashSet<_> = statuses
        .iter()
        .map(|s| {
            let c = color_for_status(s);
            (c.0.to_bits(), c.1.to_bits(), c.2.to_bits())
        })
        .collect();
    // The last two share the neutral colour.
    assert_eq!(colors.len(), 4);
}

#[test]
fn colors_are_exact() {
    let bits = |s: &str| {
        let c = color_for_status(s);
        (c.0.to_bits(), c.1.to_bits(), c.2.to_bits())
    };
    assert_eq!(bits("Charging"), (0.18f64.to_bits(), 0.80f64.to_bits(), 0.44f64.to_bits()));
    assert_eq!(bits("Discharging"), (0.90f64.to_bits(), 0.22f64.to_bits(), 0.38f64.to_bits()));
    assert_eq!(bits("Full"), (0.22f64.to_bits(), 0.76f64.to_bits(), 0.62f64.to_bits()));
    assert_eq!(bits("?"), (0.60f64.to_bits(), 0.60f64.to_bits(), 0.60f64.to_bits()));
}
