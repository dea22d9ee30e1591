//! Curve interpolation and the measurement extractor's gates.

use mkfiles::ph_gen::{disp_value_at, extract_ph_record, find_phv_amp, snr_value_at};
use mkfiles::records::DistRecord;

fn snr_curve() -> Vec<u8> {
    // columns: name period snr extra extra extra
    b"x 10.0 5.0 a b c\nx 20.0 7.0 a b c\nx 30.0 6.0 a b c\n".to_vec()
}

fn disp_curve() -> Vec<u8> {
    // columns: name name period extra phv amp extra extra
    b"x y 10.0 d 3.0 1.5 g h\nx y 20.0 d 4.0 2.5 g h\nx y 30.0 d 5.0 3.5 g h\n".to_vec()
}

#[test]
fn interpolation_is_exact_at_sample_points() {
    assert_eq!(snr_value_at(&snr_curve(), 10_000_000), Some(5_000_000));
    assert_eq!(snr_value_at(&snr_curve(), 20_000_000), Some(7_000_000));
}

#[test]
fn interpolation_at_midpoint_is_the_mean() {
    assert_eq!(snr_value_at(&snr_curve(), 15_000_000), Some(6_000_000));
    assert_eq!(snr_value_at(&snr_curve(), 25_000_000), Some(6_500_000));
    let d = disp_value_at(&disp_curve(), 15_000_000);
    assert_eq!(d, Some((3_500_000, 2_000_000)));
}

#[test]
fn interpolation_is_linear_between_samples() {
    // a quarter of the way from 10 toward 20 seconds
    assert_eq!(snr_value_at(&snr_curve(), 12_500_000), Some(5_500_000));
}

#[test]
fn target_beyond_the_curve_yields_no_value() {
    assert_eq!(snr_value_at(&snr_curve(), 30_000_000), None);
    assert_eq!(snr_value_at(&snr_curve(), 31_000_000), None);
    assert_eq!(disp_value_at(&disp_curve(), 30_000_000), None);
}

#[test]
fn target_below_the_curve_extrapolates_from_the_first_pair() {
    // the first pair with right period above the target is the very first:
    // 5.0 + (5 - 10) / (20 - 10) * (7.0 - 5.0) = 4.0
    assert_eq!(snr_value_at(&snr_curve(), 5_000_000), Some(4_000_000));
}

#[test]
fn short_lines_are_skipped_and_bad_numbers_reject_the_curve() {
    let with_short = b"header\nx 10.0 5.0 a b c\nx 20.0 7.0 a b c\n".to_vec();
    assert_eq!(snr_value_at(&with_short, 15_000_000), Some(6_000_000));
    let with_bad = b"x 10.0 5.0 a b c\nx 2o.0 7.0 a b c\n".to_vec();
    assert_eq!(snr_value_at(&with_bad, 15_000_000), None);
}

#[test]
fn unordered_curves_yield_no_value() {
    let unsorted = b"x 20.0 7.0 a b c\nx 10.0 5.0 a b c\n".to_vec();
    assert_eq!(snr_value_at(&unsorted, 15_000_000), None);
}

fn rec() -> DistRecord {
    DistRecord {
        event: b"201103110546".to_vec(),
        station: b"STA1".to_vec(),
        dist: 100_000_000,  // 100 km
        lon: 139_000_000,
        lat: 35_000_000,
    }
}

#[test]
fn extractor_builds_the_record_and_derives_time() {
    let r = extract_ph_record(&rec(), &snr_curve(), &disp_curve(), 15_000_000, 5_000_000);
    let ph = r.expect("record expected");
    assert_eq!(ph.lon, 139_000_000);
    assert_eq!(ph.lat, 35_000_000);
    assert_eq!(ph.phv, 3_500_000);
    // 100 km at 3.5 km/s: 28.571428 seconds, truncated at micro-seconds
    assert_eq!(ph.time, 28_571_428);
    assert_eq!(ph.amp, 2_000_000);
}

#[test]
fn snr_threshold_is_inclusive() {
    // at period 15 the interpolated ratio is exactly 6.0
    let kept = extract_ph_record(&rec(), &snr_curve(), &disp_curve(), 15_000_000, 6_000_000);
    assert!(kept.is_some());
    let dropped = extract_ph_record(&rec(), &snr_curve(), &disp_curve(), 15_000_000, 6_000_001);
    assert!(dropped.is_none());
}

#[test]
fn batch_applies_the_distance_gate_first() {
    let near = DistRecord { dist: 40_000_000, ..rec() };
    let far = rec();
    let inputs = vec![
        (near, snr_curve(), disp_curve()),
        (far, snr_curve(), disp_curve()),
    ];
    let out = find_phv_amp(inputs, 15_000_000, 5_000_000, 50_000_000);
    assert_eq!(out.len(), 1);
    assert_eq!(out[0].0, b"201103110546".to_vec());
    assert_eq!(out[0].1.time, 28_571_428);
}

#[test]
fn unreadable_curves_drop_the_station_only() {
    let inputs = vec![
        (rec(), Vec::new(), disp_curve()),
        (rec(), snr_curve(), disp_curve()),
    ];
    let out = find_phv_amp(inputs, 15_000_000, 5_000_000, 50_000_000);
    assert_eq!(out.len(), 1);
}
