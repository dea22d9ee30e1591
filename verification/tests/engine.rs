//! The correction engine: acceptance, rejection, wrap-around, coverage.

use mkfiles::ph_correct::{correct_event_ph_records, correct_ph_records};
use mkfiles::records::PhRecord;

fn station(lat_deg_millionths: i64, time: i64, phv: i64) -> PhRecord {
    PhRecord { lon: 0, lat: lat_deg_millionths, time, phv, amp: 1_000_000 }
}

const REF: (i64, i64) = (0, -10_000_000);  // (lon, lat): ten degrees south

#[test]
fn consistent_stations_are_all_accepted() {
    // five stations, one degree apart, same velocity and consistent times:
    // every candidate's expected time equals its own, so all are kept
    let s0 = station(0, 100_000_000, 4_000_000);
    let s1 = station(1_000_000, 110_000_000, 4_000_000);
    let s2 = station(2_000_000, 120_000_000, 4_000_000);
    let s3 = station(3_000_000, 130_000_000, 4_000_000);
    let s4 = station(4_000_000, 140_000_000, 4_000_000);
    let ev = b"201103110546".to_vec();
    let records = vec![
        (ev.clone(), s2),
        (ev.clone(), s0),
        (ev.clone(), s4),
        (ev.clone(), s1),
        (ev.clone(), s3),
    ];
    let out = correct_ph_records(records, 50_000_000, 3, 500_000, 2_000_000, REF);
    assert_eq!(out.len(), 1);
    assert_eq!(out[0].0, ev);
    // sorted by distance to the reference point, values untouched
    assert_eq!(out[0].1, vec![s0, s1, s2, s3, s4]);
}

#[test]
fn too_few_candidates_reject_the_event_outright() {
    let ev = b"201103110546".to_vec();
    let records = vec![
        (ev.clone(), station(0, 100_000_000, 4_000_000)),
        (ev.clone(), station(1_000_000, 110_000_000, 4_000_000)),
    ];
    let out = correct_ph_records(records, 50_000_000, 3, 500_000, 2_000_000, REF);
    assert!(out.is_empty());
}

#[test]
fn output_never_outgrows_the_candidates() {
    let ev = b"201103110546".to_vec();
    let mut records = Vec::new();
    for k in 0..5i64 {
        records.push((ev.clone(), station(k * 1_000_000, 100_000_000, 4_000_000)));
    }
    let n = records.len();
    let out = correct_ph_records(records, 50_000_000, 3, 500_000, 2_000_000, REF);
    assert_eq!(out.len(), 1);
    assert!(out[0].1.len() <= n);
}

#[test]
fn misfit_beyond_tolerance_rejects_stations_and_then_the_event() {
    // the seed station travels at 4 km/s; the three later candidates carry
    // 2 km/s, so each expected time is half the measured one:
    // dt_raw = 50 s; period 30 s wraps it to -10 s, beyond the 2 s tolerance
    let a = station(0, 100_000_000, 4_000_000);
    let b = station(1_000_000, 100_000_000, 2_000_000);
    let c = station(2_000_000, 100_000_000, 2_000_000);
    let d = station(3_000_000, 100_000_000, 2_000_000);
    let ev = b"201103110546".to_vec();
    let records = vec![(ev.clone(), a), (ev.clone(), b), (ev.clone(), c), (ev.clone(), d)];
    // one survivor out of four is below both the count and the fraction
    let out = correct_ph_records(records, 30_000_000, 3, 500_000, 2_000_000, REF);
    assert!(out.is_empty());
}

#[test]
fn residual_at_half_period_wraps_to_minus_half() {
    // seed: 2 km/s, candidate: 2.5 km/s and 300 s, so its expected time is
    // 375 s and the raw residual -75 s. Modulo the 50 s period that residual
    // sits exactly at half a period, which wraps to minus half: the accepted
    // candidate is rewritten to 350 s, not 400 s.
    let a = station(0, 100_000_000, 2_000_000);
    let b = station(1_000_000, 300_000_000, 2_500_000);
    let out = correct_event_ph_records(
        vec![a, b],
        50_000_000,
        2,
        500_000,
        25_000_000,
        REF.0,
        REF.1,
    );
    let kept = out.expect("event expected");
    assert_eq!(kept.len(), 2);
    assert_eq!(kept[0], a);
    assert_eq!(kept[1].time, 350_000_000);
    assert_eq!(kept[1].phv, 2_142_857);
    assert_eq!(kept[1].lat, 1_000_000);
    assert_eq!(kept[1].amp, 1_000_000);
}

#[test]
fn zero_residual_keeps_the_candidate_unchanged() {
    let a = station(0, 100_000_000, 4_000_000);
    let b = station(1_000_000, 115_000_000, 4_000_000);
    let out = correct_event_ph_records(
        vec![a, b],
        50_000_000,
        2,
        500_000,
        2_000_000,
        REF.0,
        REF.1,
    );
    assert_eq!(out.expect("event expected"), vec![a, b]);
}

#[test]
fn a_correction_that_would_zero_the_time_rejects_the_candidate() {
    // expected time 25 s and residual -25 s would leave no travel time at
    // all; the engine rejects the candidate instead of dividing by zero
    let a = station(0, 100_000_000, 4_000_000);
    let b = station(1_000_000, 50_000_000, 2_000_000);
    let out = correct_event_ph_records(
        vec![a, b],
        50_000_000,
        2,
        500_000,
        25_000_000,
        REF.0,
        REF.1,
    );
    assert!(out.is_none());
}

#[test]
fn acceptance_fraction_gate_applies_to_the_original_count() {
    // four candidates, two survive: the count passes nsta = 2 but the
    // fraction 0.5 is below a 0.6 requirement
    let a = station(0, 100_000_000, 4_000_000);
    let b = station(1_000_000, 110_000_000, 4_000_000);
    let c = station(2_000_000, 100_000_000, 2_000_000);
    let d = station(3_000_000, 100_000_000, 2_000_000);
    let out = correct_event_ph_records(
        vec![a, b, c, d],
        30_000_000,
        2,
        600_000,
        2_000_000,
        REF.0,
        REF.1,
    );
    assert!(out.is_none());
    let out2 = correct_event_ph_records(
        vec![a, b, c, d],
        30_000_000,
        2,
        500_000,
        2_000_000,
        REF.0,
        REF.1,
    );
    assert_eq!(out2.expect("event expected"), vec![a, b]);
}

#[test]
fn events_are_corrected_independently_in_first_appearance_order() {
    let ev1 = b"201103110546".to_vec();
    let ev2 = b"201104071432".to_vec();
    let records = vec![
        (ev2.clone(), station(0, 100_000_000, 4_000_000)),
        (ev1.clone(), station(0, 100_000_000, 4_000_000)),
        (ev2.clone(), station(1_000_000, 110_000_000, 4_000_000)),
        (ev1.clone(), station(1_000_000, 110_000_000, 4_000_000)),
        (ev1.clone(), station(2_000_000, 120_000_000, 4_000_000)),
    ];
    let out = correct_ph_records(records, 50_000_000, 2, 500_000, 2_000_000, REF);
    assert_eq!(out.len(), 2);
    assert_eq!(out[0].0, ev2);
    assert_eq!(out[0].1.len(), 2);
    assert_eq!(out[1].0, ev1);
    assert_eq!(out[1].1.len(), 3);
}
