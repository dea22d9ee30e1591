//! Event labels, table columns, and raw-file name matching.

use mkfiles::dist::{
    create_dist_record, find_column, load_valid_events, load_valid_stations, parse_sac_entry,
};

fn headers(names: &[&[u8]]) -> Vec<Vec<u8>> {
    names.iter().map(|n| n.to_vec()).collect()
}

#[test]
fn event_labels_come_from_utc_timestamps() {
    let hs = headers(&[b"id", b"time", b"mag"]);
    let rows = vec![
        vec![b"1".to_vec(), b"2011-03-11T05:46:24.120Z".to_vec(), b"9.1".to_vec()],
        vec![b"2".to_vec(), b"2011-04-07T14:32:43Z".to_vec(), b"7.1".to_vec()],
    ];
    let labels = load_valid_events(&hs, &rows).expect("time column present");
    assert_eq!(labels, vec![b"201103110546".to_vec(), b"201104071432".to_vec()]);
}

#[test]
fn offset_timestamps_are_converted_to_utc() {
    let hs = headers(&[b"time"]);
    let rows = vec![vec![b"2011-03-11T05:46:24+09:00".to_vec()]];
    let labels = load_valid_events(&hs, &rows).expect("time column present");
    assert_eq!(labels, vec![b"201103102046".to_vec()]);
}

#[test]
fn unusable_timestamps_are_skipped() {
    let hs = headers(&[b"time"]);
    let rows = vec![
        vec![b"not a time".to_vec()],
        vec![b"2011-03-11T05:46:24Z".to_vec()],
        vec![],
    ];
    let labels = load_valid_events(&hs, &rows).expect("time column present");
    assert_eq!(labels, vec![b"201103110546".to_vec()]);
}

#[test]
fn a_missing_time_column_is_fatal() {
    let hs = headers(&[b"id", b"timestamp"]);
    let rows = vec![vec![b"1".to_vec(), b"2011-03-11T05:46:24Z".to_vec()]];
    assert!(load_valid_events(&hs, &rows).is_none());
}

#[test]
fn station_names_come_from_the_station_column() {
    let hs = headers(&[b"network", b"station"]);
    let rows = vec![
        vec![b"IU".to_vec(), b"STA1".to_vec()],
        vec![b"IU".to_vec(), b"STA2".to_vec()],
        vec![b"IU".to_vec()],
    ];
    let names = load_valid_stations(&hs, &rows).expect("station column present");
    assert_eq!(names, vec![b"STA1".to_vec(), b"STA2".to_vec()]);
    assert!(load_valid_stations(&headers(&[b"name"]), &rows).is_none());
}

#[test]
fn find_column_returns_the_first_match() {
    let hs = headers(&[b"a", b"b", b"a"]);
    assert_eq!(find_column(&hs, b"a"), Some(0));
    assert_eq!(find_column(&hs, b"b"), Some(1));
    assert_eq!(find_column(&hs, b"c"), None);
}

fn valid_sets() -> (Vec<Vec<u8>>, Vec<Vec<u8>>) {
    (
        vec![b"201103110546".to_vec(), b"201104071432".to_vec()],
        vec![b"STA1".to_vec(), b"STA2".to_vec()],
    )
}

#[test]
fn matching_file_names_yield_their_tokens() {
    let (evs, stas) = valid_sets();
    let r = parse_sac_entry(b"201103110546.STA1.LHZ.sac", &evs, &stas);
    let (e, s) = r.expect("match expected");
    assert_eq!(e, b"201103110546".to_vec());
    assert_eq!(s, b"STA1".to_vec());
}

#[test]
fn wrong_extension_or_unknown_tokens_do_not_match() {
    let (evs, stas) = valid_sets();
    assert!(parse_sac_entry(b"201103110546.STA1.LHZ.txt", &evs, &stas).is_none());
    assert!(parse_sac_entry(b"201103110546.STA9.LHZ.sac", &evs, &stas).is_none());
    assert!(parse_sac_entry(b"999912312359.STA1.LHZ.sac", &evs, &stas).is_none());
    assert!(parse_sac_entry(b"nodotshere", &evs, &stas).is_none());
    assert!(parse_sac_entry(b"", &evs, &stas).is_none());
}

#[test]
fn distance_records_carry_the_given_values() {
    let r = create_dist_record(
        b"201103110546".to_vec(),
        b"STA1".to_vec(),
        1_234_567_890,
        139_000_000,
        35_000_000,
    );
    assert_eq!(r.event, b"201103110546".to_vec());
    assert_eq!(r.station, b"STA1".to_vec());
    assert_eq!(r.dist, 1_234_567_890);
    assert_eq!(r.lon, 139_000_000);
    assert_eq!(r.lat, 35_000_000);
}
