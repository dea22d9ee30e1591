//! The per-event record file format and its round trip.

use mkfiles::output::{parse_ph_file, render_ph_file};
use mkfiles::ph_correct::correct_ph_records;
use mkfiles::ph_gen::find_phv_amp;
use mkfiles::records::{DistRecord, PhRecord};

#[test]
fn rendering_writes_the_documented_text() {
    let rec = PhRecord {
        lon: 1_000_000,
        lat: 2_000_000,
        time: 3_000_000,
        phv: 4_000_000,
        amp: 5_000_000,
    };
    let text = render_ph_file(&vec![rec]);
    assert_eq!(
        text,
        b"lon,lat,time,phv,amp\n1.000000,2.000000,3.000000,4.000000,5.000000\n".to_vec()
    );
}

#[test]
fn writing_and_reparsing_yields_the_same_records() {
    let records = vec![
        PhRecord {
            lon: 139_123_456,
            lat: -35_654_321,
            time: 28_571_428,
            phv: 3_500_000,
            amp: -2_000_001,
        },
        PhRecord { lon: 0, lat: 0, time: 1, phv: 1, amp: 0 },
        PhRecord {
            lon: -179_999_999,
            lat: 89_999_999,
            time: 9_999_999_999_999,
            phv: 999_999_999,
            amp: 123,
        },
    ];
    let text = render_ph_file(&records);
    assert_eq!(parse_ph_file(&text), Some(records));
}

#[test]
fn an_empty_record_list_round_trips_too() {
    let text = render_ph_file(&Vec::new());
    assert_eq!(text, b"lon,lat,time,phv,amp\n".to_vec());
    assert_eq!(parse_ph_file(&text), Some(Vec::new()));
}

#[test]
fn damaged_files_do_not_parse() {
    assert_eq!(parse_ph_file(b""), None);
    assert_eq!(parse_ph_file(b"lon,lat,time,phv\n1.0,2.0,3.0,4.0\n"), None);
    assert_eq!(parse_ph_file(b"lon,lat,time,phv,amp\n1.0,2.0,3.0\n"), None);
    assert_eq!(parse_ph_file(b"lon,lat,time,phv,amp\n1.0,2.0,x,4.0,5.0\n"), None);
}

#[test]
fn the_pipeline_feeds_the_writer_end_to_end() {
    // one event, two stations within tolerance of each other, written out
    // and read back
    let snr = b"x 10.0 9.0 a b c\nx 20.0 9.0 a b c\n".to_vec();
    let disp = b"x y 10.0 d 4.0 1.5 g h\nx y 20.0 d 4.0 2.5 g h\n".to_vec();
    let mk = |station: &[u8], lat: i64, dist: i64| DistRecord {
        event: b"201103110546".to_vec(),
        station: station.to_vec(),
        dist,
        lon: 0,
        lat,
    };
    let inputs = vec![
        (mk(b"STA1", 0, 400_000_000), snr.clone(), disp.clone()),
        (mk(b"STA2", 1_000_000, 440_000_000), snr, disp),
    ];
    let pairs = find_phv_amp(inputs, 15_000_000, 5_000_000, 100_000_000);
    assert_eq!(pairs.len(), 2);
    // time = dist / 4 km/s: 100 s and 110 s
    assert_eq!(pairs[0].1.time, 100_000_000);
    assert_eq!(pairs[1].1.time, 110_000_000);
    let corrected = correct_ph_records(pairs, 50_000_000, 2, 500_000, 2_000_000, (0, -10_000_000));
    assert_eq!(corrected.len(), 1);
    assert_eq!(corrected[0].0, b"201103110546".to_vec());
    let text = render_ph_file(&corrected[0].1);
    assert_eq!(parse_ph_file(&text), Some(corrected[0].1.clone()));
    assert_eq!(corrected[0].1.len(), 2);
}
