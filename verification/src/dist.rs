//! The distance index.
//!
//! Raw data files are named `<event>.<station>.<tail>` with a fixed
//! extension; an event is named by a canonical compact label derived from its
//! catalogue timestamp (UTC year, month, day, hour and minute, zero-padded).
//! This module derives the label set from the event table's time column,
//! reads the station set from the station table, matches file names against
//! both sets, and assembles the distance records from header values read
//! elsewhere.

use vstd::prelude::*;
use chrono::{Datelike, Timelike};
use crate::bytes_eq;
use crate::fixed::pad_digits;
use crate::records::DistRecord;
use crate::text::{bytes_view, split_on, split_on_byte};

verus! {

/// The UTC calendar fields (year, month, day, hour, minute) spelled by an
/// RFC 3339 timestamp, or nothing where the bytes are not one.
pub uninterp spec fn rfc3339_utc_fields(s: Seq<u8>) -> Option<(i32, u32, u32, u32, u32)>;

/// Relies on chrono's `DateTime::parse_from_rfc3339` and `with_timezone`
/// toward UTC: the UTC calendar fields of a timestamp are a function of the
/// text alone, and chrono yields only calendar-valid fields (month in
/// 1..=12, day in 1..=31, hour below 24, minute below 60).
#[verifier::external_body]
fn parse_rfc3339_utc(s: &[u8]) -> (r: Option<(i32, u32, u32, u32, u32)>)
    ensures
        r == rfc3339_utc_fields(s@),
        r matches Some(f) ==> 1 <= f.1 <= 12 && 1 <= f.2 <= 31 && f.3 <= 23 && f.4 <= 59,
{
    let text = core::str::from_utf8(s).ok()?;
    let dt = chrono::DateTime::parse_from_rfc3339(text).ok()?;
    let utc = dt.with_timezone(&chrono::Utc);
    Some((utc.year(), utc.month(), utc.day(), utc.hour(), utc.minute()))
}

/// The canonical compact event label: four year digits then two digits each
/// for month, day, hour and minute.
pub open spec fn event_label(y: int, mo: int, d: int, h: int, mi: int) -> Seq<u8> {
    pad_digits(y as nat, 4) + pad_digits(mo as nat, 2) + pad_digits(d as nat, 2) + pad_digits(
        h as nat, 2) + pad_digits(mi as nat, 2)
}

/// The label a timestamp contributes: its UTC fields formatted compactly,
/// nothing for unparseable text or a year outside four digits.
pub open spec fn event_label_of(s: Seq<u8>) -> Option<Seq<u8>> {
    match rfc3339_utc_fields(s) {
        Some(f) => if 0 <= f.0 <= 9999 {
            Some(event_label(f.0 as int, f.1 as int, f.2 as int, f.3 as int, f.4 as int))
        } else {
            None
        },
        None => None,
    }
}

/// Formats the label for given calendar fields; `None` for a year outside
/// four digits.
pub fn format_event_label(y: i32, mo: u32, d: u32, h: u32, mi: u32) -> (r: Option<Vec<u8>>)
    requires
        mo <= 99,
        d <= 99,
        h <= 99,
        mi <= 99,
    ensures
        r is Some <==> 0 <= y <= 9999,
        r matches Some(l) ==> l@ == event_label(y as int, mo as int, d as int, h as int,
            mi as int),
{
    if y < 0 || y > 9999 {
        return None;
    }
    let mut out: Vec<u8> = Vec::new();
    crate::fixed::push_pad_digits(y as u64, 4, &mut out);
    crate::fixed::push_pad_digits(mo as u64, 2, &mut out);
    crate::fixed::push_pad_digits(d as u64, 2, &mut out);
    crate::fixed::push_pad_digits(h as u64, 2, &mut out);
    crate::fixed::push_pad_digits(mi as u64, 2, &mut out);
    proof {
        assert(out@ =~= event_label(y as int, mo as int, d as int, h as int, mi as int));
    }
    Some(out)
}

/// First index in `hs` holding exactly `name`, or `hs.len()` if none does.
pub open spec fn header_index(hs: Seq<Seq<u8>>, name: Seq<u8>, i: int) -> int
    decreases hs.len() - i,
{
    if i < 0 || i >= hs.len() {
        hs.len() as int
    } else if hs[i] == name {
        i
    } else {
        header_index(hs, name, i + 1)
    }
}

proof fn lemma_header_index_is(hs: Seq<Seq<u8>>, name: Seq<u8>, i: int, k: int)
    requires
        0 <= i <= k <= hs.len(),
        forall|j: int| i <= j < k ==> hs[j] != name,
        k < hs.len() ==> hs[k] == name,
    ensures
        header_index(hs, name, i) == k,
    decreases k - i,
{
    if i < k {
        lemma_header_index_is(hs, name, i + 1, k);
    }
}

/// Finds the column with the given header name: the first index whose header
/// equals `name` byte for byte, or `None` when no column has that name.
pub fn find_column(headers: &Vec<Vec<u8>>, name: &[u8]) -> (r: Option<usize>)
    ensures
        (match r {
            Some(ix) => ix == header_index(bytes_view(headers@), name@, 0)
                && ix < headers@.len() && headers@[ix as int]@ == name@,
            None => header_index(bytes_view(headers@), name@, 0) == headers@.len(),
        }),
{
    let ghost hv = bytes_view(headers@);
    let mut k: usize = 0;
    while k < headers.len()
        invariant
            k <= headers@.len(),
            hv == bytes_view(headers@),
            forall|j: int| 0 <= j < k ==> hv[j] != name@,
        decreases headers@.len() - k,
    {
        if bytes_eq(headers[k].as_slice(), name) {
            proof {
                lemma_header_index_is(hv, name@, 0, k as int);
            }
            return Some(k);
        }
        k = k + 1;
    }
    proof {
        lemma_header_index_is(hv, name@, 0, hv.len() as int);
    }
    None
}

/// The rows with their cells read as byte strings.
pub open spec fn rows_view(rs: Seq<Vec<Vec<u8>>>) -> Seq<Seq<Seq<u8>>> {
    rs.map_values(|r: Vec<Vec<u8>>| bytes_view(r@))
}

/// The event labels contributed by column `ix` of the rows, in row order;
/// rows lacking the column or carrying unusable text contribute nothing.
pub open spec fn event_labels_from_rows(rows: Seq<Seq<Seq<u8>>>, ix: int) -> Seq<Seq<u8>>
    decreases rows.len(),
{
    if rows.len() == 0 {
        Seq::empty()
    } else {
        let rest = event_labels_from_rows(rows.drop_last(), ix);
        let row = rows.last();
        if 0 <= ix < row.len() {
            match event_label_of(row[ix]) {
                Some(l) => rest.push(l),
                None => rest,
            }
        } else {
            rest
        }
    }
}

/// The station names in column `ix` of the rows, in row order; rows lacking
/// the column contribute nothing.
pub open spec fn station_values_from_rows(rows: Seq<Seq<Seq<u8>>>, ix: int) -> Seq<Seq<u8>>
    decreases rows.len(),
{
    if rows.len() == 0 {
        Seq::empty()
    } else {
        let rest = station_values_from_rows(rows.drop_last(), ix);
        let row = rows.last();
        if 0 <= ix < row.len() {
            rest.push(row[ix])
        } else {
            rest
        }
    }
}

/// The header name of the event table's timestamp column.
pub open spec fn time_key() -> Seq<u8> {
    seq![116u8, 105u8, 109u8, 101u8]
}

/// The header name of the station table's name column.
pub open spec fn station_key() -> Seq<u8> {
    seq![115u8, 116u8, 97u8, 116u8, 105u8, 111u8, 110u8]
}

fn time_key_exec() -> (r: Vec<u8>)
    ensures
        r@ == time_key(),
{
    let mut v: Vec<u8> = Vec::new();
    v.push(116);
    v.push(105);
    v.push(109);
    v.push(101);
    proof {
        assert(v@ =~= time_key());
    }
    v
}

fn station_key_exec() -> (r: Vec<u8>)
    ensures
        r@ == station_key(),
{
    let mut v: Vec<u8> = Vec::new();
    v.push(115);
    v.push(116);
    v.push(97);
    v.push(116);
    v.push(105);
    v.push(111);
    v.push(110);
    proof {
        assert(v@ =~= station_key());
    }
    v
}

/// What the valid-event set is: the labels of the rows' timestamp column,
/// or nothing when the table has no such column (a fatal table error).
pub open spec fn valid_events_spec(hs: Seq<Seq<u8>>, rows: Seq<Seq<Seq<u8>>>) -> Option<Seq<Seq<
    u8>>> {
    let ix = header_index(hs, time_key(), 0);
    if ix == hs.len() {
        None
    } else {
        Some(event_labels_from_rows(rows, ix))
    }
}

/// Derives the valid-event label set from an event table given as headers
/// and rows of byte strings; `None` only when the timestamp column is
/// missing, which aborts the batch.
pub fn load_valid_events(headers: &Vec<Vec<u8>>, rows: &Vec<Vec<Vec<u8>>>) -> (r: Option<Vec<Vec<
    u8>>>)
    ensures
        r is Some <==> valid_events_spec(bytes_view(headers@), rows_view(rows@)) is Some,
        r matches Some(v) ==> bytes_view(v@) == valid_events_spec(bytes_view(headers@),
            rows_view(rows@))->Some_0,
{
    let key = time_key_exec();
    let ix = match find_column(headers, key.as_slice()) {
        Some(ix) => ix,
        None => {
            return None;
        },
    };
    let ghost rv = rows_view(rows@);
    let mut out: Vec<Vec<u8>> = Vec::new();
    let mut n: usize = 0;
    proof {
        assert(rv.subrange(0, 0) =~= Seq::<Seq<Seq<u8>>>::empty());
        assert(bytes_view(out@) =~= event_labels_from_rows(rv.subrange(0, 0), ix as int));
    }
    while n < rows.len()
        invariant
            n <= rows@.len(),
            rv == rows_view(rows@),
            ix < headers@.len(),
            bytes_view(out@) == event_labels_from_rows(rv.subrange(0, n as int), ix as int),
        decreases rows@.len() - n,
    {
        let ghost prefix = rv.subrange(0, n as int);
        let ghost prefix2 = rv.subrange(0, n as int + 1);
        let ghost pre_out = out@;
        proof {
            assert(prefix2.drop_last() =~= prefix);
            assert(prefix2.last() == rv[n as int]);
            assert(rv[n as int] == bytes_view(rows@[n as int]@));
        }
        let row = &rows[n];
        if ix < row.len() {
            proof {
                assert(rv[n as int][ix as int] == row@[ix as int]@);
            }
            match parse_rfc3339_utc(row[ix].as_slice()) {
                Some((y, mo, d, h, mi)) => {
                    match format_event_label(y, mo, d, h, mi) {
                        Some(l) => {
                            out.push(l);
                            proof {
                                assert(bytes_view(out@) =~= bytes_view(pre_out).push(l@));
                            }
                        },
                        None => {},
                    }
                },
                None => {},
            }
        }
        n = n + 1;
    }
    proof {
        assert(rv.subrange(0, rows@.len() as int) =~= rv);
    }
    Some(out)
}

/// What the valid-station set is: the rows' station-name column, or nothing
/// when the table has no such column (a fatal table error).
pub open spec fn valid_stations_spec(hs: Seq<Seq<u8>>, rows: Seq<Seq<Seq<u8>>>) -> Option<Seq<Seq<
    u8>>> {
    let ix = header_index(hs, station_key(), 0);
    if ix == hs.len() {
        None
    } else {
        Some(station_values_from_rows(rows, ix))
    }
}

/// Reads the valid-station name set from a station table given as headers
/// and rows of byte strings; `None` only when the station column is missing.
pub fn load_valid_stations(headers: &Vec<Vec<u8>>, rows: &Vec<Vec<Vec<u8>>>) -> (r: Option<Vec<
    Vec<u8>>>)
    ensures
        r is Some <==> valid_stations_spec(bytes_view(headers@), rows_view(rows@)) is Some,
        r matches Some(v) ==> bytes_view(v@) == valid_stations_spec(bytes_view(headers@),
            rows_view(rows@))->Some_0,
{
    let key = station_key_exec();
    let ix = match find_column(headers, key.as_slice()) {
        Some(ix) => ix,
        None => {
            return None;
        },
    };
    let ghost rv = rows_view(rows@);
    let mut out: Vec<Vec<u8>> = Vec::new();
    let mut n: usize = 0;
    proof {
        assert(rv.subrange(0, 0) =~= Seq::<Seq<Seq<u8>>>::empty());
        assert(bytes_view(out@) =~= station_values_from_rows(rv.subrange(0, 0), ix as int));
    }
    while n < rows.len()
        invariant
            n <= rows@.len(),
            rv == rows_view(rows@),
            ix < headers@.len(),
            bytes_view(out@) == station_values_from_rows(rv.subrange(0, n as int), ix as int),
        decreases rows@.len() - n,
    {
        let ghost prefix = rv.subrange(0, n as int);
        let ghost prefix2 = rv.subrange(0, n as int + 1);
        let ghost pre_out = out@;
        proof {
            assert(prefix2.drop_last() =~= prefix);
            assert(prefix2.last() == rv[n as int]);
            assert(rv[n as int] == bytes_view(rows@[n as int]@));
        }
        let row = &rows[n];
        if ix < row.len() {
            proof {
                assert(rv[n as int][ix as int] == row@[ix as int]@);
            }
            let cell = crate::points::clone_bytes(&row[ix]);
            out.push(cell);
            proof {
                assert(bytes_view(out@) =~= bytes_view(pre_out).push(rv[n as int][ix as int]));
            }
        }
        n = n + 1;
    }
    proof {
        assert(rv.subrange(0, rows@.len() as int) =~= rv);
    }
    Some(out)
}

/// The raw-file extension the index accepts.
pub open spec fn sac_key() -> Seq<u8> {
    seq![115u8, 97u8, 99u8]
}

fn sac_key_exec() -> (r: Vec<u8>)
    ensures
        r@ == sac_key(),
{
    let mut v: Vec<u8> = Vec::new();
    v.push(115);
    v.push(97);
    v.push(99);
    proof {
        assert(v@ =~= sac_key());
    }
    v
}

/// The event and station tokens of a raw file name: the first two
/// dot-separated parts, accepted only when the part after the last dot is
/// the raw-file extension and the event token is not empty.
pub open spec fn sac_name_parts(name: Seq<u8>) -> Option<(Seq<u8>, Seq<u8>)> {
    let parts = split_on(name, 46);
    if parts.len() >= 2 && parts.last() == sac_key() && parts[0].len() >= 1 {
        Some((parts[0], parts[1]))
    } else {
        None
    }
}

/// Membership of a byte string in a list of byte strings.
pub open spec fn contains_bytes(set: Seq<Seq<u8>>, x: Seq<u8>) -> bool {
    exists|i: int| 0 <= i < set.len() && set[i] == x
}

fn contains_entry(set: &Vec<Vec<u8>>, x: &[u8]) -> (r: bool)
    ensures
        r == contains_bytes(bytes_view(set@), x@),
{
    let mut k: usize = 0;
    while k < set.len()
        invariant
            k <= set@.len(),
            forall|j: int| 0 <= j < k ==> bytes_view(set@)[j] != x@,
        decreases set@.len() - k,
    {
        if bytes_eq(set[k].as_slice(), x) {
            proof {
                assert(bytes_view(set@)[k as int] == x@);
            }
            return true;
        }
        k = k + 1;
    }
    false
}

/// What a directory entry's file name must yield to be indexed: its event
/// and station tokens, both present in the valid sets.
pub open spec fn sac_entry_spec(name: Seq<u8>, events: Seq<Seq<u8>>, stations: Seq<Seq<u8>>)
    -> Option<(Seq<u8>, Seq<u8>)> {
    match sac_name_parts(name) {
        Some(p) => if contains_bytes(events, p.0) && contains_bytes(stations, p.1) {
            Some(p)
        } else {
            None
        },
        None => None,
    }
}

/// Matches one raw file name against the valid event and station sets,
/// returning its event and station tokens on success; see `sac_entry_spec`.
pub fn parse_sac_entry(name: &[u8], valid_events: &Vec<Vec<u8>>, valid_stations: &Vec<Vec<u8>>)
    -> (r: Option<(Vec<u8>, Vec<u8>)>)
    ensures
        r is Some <==> sac_entry_spec(name@, bytes_view(valid_events@),
            bytes_view(valid_stations@)) is Some,
        r matches Some(p) ==> sac_entry_spec(name@, bytes_view(valid_events@),
            bytes_view(valid_stations@)) == Some((p.0@, p.1@)),
{
    let mut parts = split_on_byte(name, 46);
    if parts.len() < 2 {
        return None;
    }
    let key = sac_key_exec();
    proof {
        assert(bytes_view(parts@).last() == parts@[parts@.len() - 1]@);
        assert(bytes_view(parts@)[0] == parts@[0]@);
        assert(bytes_view(parts@)[1] == parts@[1]@);
    }
    if !bytes_eq(parts[parts.len() - 1].as_slice(), key.as_slice()) {
        return None;
    }
    if parts[0].len() == 0 {
        return None;
    }
    let event = parts.remove(0);
    let station = parts.remove(0);
    if !contains_entry(valid_events, event.as_slice()) {
        return None;
    }
    if !contains_entry(valid_stations, station.as_slice()) {
        return None;
    }
    Some((event, station))
}

/// Assembles one distance record from matched tokens and the header values
/// read from the companion data file.
pub fn create_dist_record(event: Vec<u8>, station: Vec<u8>, dist: i64, lon: i64, lat: i64) -> (r:
    DistRecord)
    ensures
        r.event == event,
        r.station == station,
        r.dist == dist,
        r.lon == lon,
        r.lat == lat,
{
    DistRecord { event, station, dist, lon, lat }
}

} // verus!
