//! The output writer's file format.
//!
//! A per-event record file is comma-separated text: a header line naming the
//! five columns, then one line per record with longitude, latitude, travel
//! time, phase velocity and amplitude, each rendered with six fractional
//! digits. Rendering and re-parsing a record list is the identity.

use vstd::prelude::*;
use crate::fixed::{
    in_val_range, lemma_format_fixed_bytes, lemma_find_byte_is, lemma_parse_format, format_fixed,
    parse_decimal, parse_decimal_bytes, spec_format_fixed,
};
use crate::records::PhRecord;
use crate::text::{bytes_view, lines_of, split_on, split_on_byte};

verus! {

/// Every field of the record lies within the storable value range.
pub open spec fn storable(r: PhRecord) -> bool {
    in_val_range(r.lon as int) && in_val_range(r.lat as int) && in_val_range(r.time as int)
        && in_val_range(r.phv as int) && in_val_range(r.amp as int)
}

/// The header line naming the five columns.
pub open spec fn header_line() -> Seq<u8> {
    seq![108u8, 111u8, 110u8, 44u8, 108u8, 97u8, 116u8, 44u8, 116u8, 105u8, 109u8, 101u8, 44u8,
        112u8, 104u8, 118u8, 44u8, 97u8, 109u8, 112u8]
}

fn header_line_exec() -> (r: Vec<u8>)
    ensures
        r@ == header_line(),
{
    let mut v: Vec<u8> = Vec::new();
    v.push(108);
    v.push(111);
    v.push(110);
    v.push(44);
    v.push(108);
    v.push(97);
    v.push(116);
    v.push(44);
    v.push(116);
    v.push(105);
    v.push(109);
    v.push(101);
    v.push(44);
    v.push(112);
    v.push(104);
    v.push(118);
    v.push(44);
    v.push(97);
    v.push(109);
    v.push(112);
    proof {
        assert(v@ =~= header_line());
    }
    v
}

/// One record's line: the five fields, comma-separated.
pub open spec fn record_line(r: PhRecord) -> Seq<u8> {
    spec_format_fixed(r.lon as int) + seq![44u8] + spec_format_fixed(r.lat as int) + seq![44u8]
        + spec_format_fixed(r.time as int) + seq![44u8] + spec_format_fixed(r.phv as int)
        + seq![44u8] + spec_format_fixed(r.amp as int)
}

/// The record lines, each closed by a newline.
pub open spec fn render_body(rs: Seq<PhRecord>) -> Seq<u8>
    decreases rs.len(),
{
    if rs.len() == 0 {
        Seq::empty()
    } else {
        record_line(rs[0]) + seq![10u8] + render_body(rs.drop_first())
    }
}

/// A whole record file: the header line, then one line per record, each
/// closed by a newline.
pub open spec fn render_ph_file_spec(rs: Seq<PhRecord>) -> Seq<u8> {
    header_line() + seq![10u8] + render_body(rs)
}

/// A line read back as a record: exactly five comma-separated decimal
/// fields.
pub open spec fn parse_record_line(line: Seq<u8>) -> Option<PhRecord> {
    let fs = split_on(line, 44);
    if fs.len() == 5 {
        match (parse_decimal(fs[0]), parse_decimal(fs[1]), parse_decimal(fs[2]), parse_decimal(
            fs[3]), parse_decimal(fs[4])) {
            (Some(lon), Some(lat), Some(time), Some(phv), Some(amp)) => Some(
                PhRecord {
                    lon: lon as i64,
                    lat: lat as i64,
                    time: time as i64,
                    phv: phv as i64,
                    amp: amp as i64,
                },
            ),
            _ => None,
        }
    } else {
        None
    }
}

/// The record lines read back in order; one malformed line rejects the file.
pub open spec fn parse_lines(ls: Seq<Seq<u8>>) -> Option<Seq<PhRecord>>
    decreases ls.len(),
{
    if ls.len() == 0 {
        Some(Seq::empty())
    } else {
        match (parse_record_line(ls[0]), parse_lines(ls.drop_first())) {
            (Some(r), Some(rest)) => Some(seq![r] + rest),
            _ => None,
        }
    }
}

/// A whole record file read back: the header line must match, and every
/// following line must be a record.
pub open spec fn parse_ph_file_spec(text: Seq<u8>) -> Option<Seq<PhRecord>> {
    let ls = lines_of(text);
    if ls.len() >= 1 && ls[0] == header_line() {
        parse_lines(ls.drop_first())
    } else {
        None
    }
}

/// Splitting text that starts with a delimiter-free segment peels it off.
proof fn lemma_split_prepend(a: Seq<u8>, b: Seq<u8>, c: u8)
    requires
        forall|k: int| 0 <= k < a.len() ==> a[k] != c,
    ensures
        split_on(a + seq![c] + b, c) == seq![a] + split_on(b, c),
{
    let s = a + seq![c] + b;
    assert(s[a.len() as int] == c);
    assert(forall|k: int| 0 <= k < a.len() ==> s[k] == a[k] && s[k] != c);
    lemma_find_byte_is(s, c, 0, a.len() as int);
    assert(s.subrange(0, a.len() as int) =~= a);
    assert(s.subrange(a.len() as int + 1, s.len() as int) =~= b);
}

/// Splitting a non-empty delimiter-free text yields that text alone.
proof fn lemma_split_whole(a: Seq<u8>, c: u8)
    requires
        a.len() >= 1,
        forall|k: int| 0 <= k < a.len() ==> a[k] != c,
    ensures
        split_on(a, c) == seq![a],
{
    lemma_find_byte_is(a, c, 0, a.len() as int);
}

/// A formatted field holds no comma and no newline.
proof fn lemma_format_no_delims(v: int)
    ensures
        forall|k: int|
            0 <= k < spec_format_fixed(v).len() ==> spec_format_fixed(v)[k] != 44
                && spec_format_fixed(v)[k] != 10,
        spec_format_fixed(v).len() >= 1,
{
    lemma_format_fixed_bytes(v);
}

/// A record's line holds no newline.
proof fn lemma_record_line_no_nl(r: PhRecord)
    ensures
        forall|k: int| 0 <= k < record_line(r).len() ==> record_line(r)[k] != 10,
{
    lemma_format_no_delims(r.lon as int);
    lemma_format_no_delims(r.lat as int);
    lemma_format_no_delims(r.time as int);
    lemma_format_no_delims(r.phv as int);
    lemma_format_no_delims(r.amp as int);
}

/// A rendered record line reads back as exactly that record.
proof fn lemma_parse_record_line(r: PhRecord)
    requires
        storable(r),
    ensures
        parse_record_line(record_line(r)) == Some(r),
{
    let f1 = spec_format_fixed(r.lon as int);
    let f2 = spec_format_fixed(r.lat as int);
    let f3 = spec_format_fixed(r.time as int);
    let f4 = spec_format_fixed(r.phv as int);
    let f5 = spec_format_fixed(r.amp as int);
    lemma_format_no_delims(r.lon as int);
    lemma_format_no_delims(r.lat as int);
    lemma_format_no_delims(r.time as int);
    lemma_format_no_delims(r.phv as int);
    lemma_format_no_delims(r.amp as int);
    let line = record_line(r);
    let t2 = f2 + seq![44u8] + f3 + seq![44u8] + f4 + seq![44u8] + f5;
    let t3 = f3 + seq![44u8] + f4 + seq![44u8] + f5;
    let t4 = f4 + seq![44u8] + f5;
    assert(line =~= f1 + seq![44u8] + t2);
    lemma_split_prepend(f1, t2, 44);
    assert(t2 =~= f2 + seq![44u8] + t3);
    lemma_split_prepend(f2, t3, 44);
    assert(t3 =~= f3 + seq![44u8] + t4);
    lemma_split_prepend(f3, t4, 44);
    assert(t4 =~= f4 + seq![44u8] + f5);
    lemma_split_prepend(f4, f5, 44);
    lemma_split_whole(f5, 44);
    let fs = split_on(line, 44);
    assert(fs =~= seq![f1, f2, f3, f4, f5]);
    lemma_parse_format(r.lon as int);
    lemma_parse_format(r.lat as int);
    lemma_parse_format(r.time as int);
    lemma_parse_format(r.phv as int);
    lemma_parse_format(r.amp as int);
}

/// The lines of a rendered body are the record lines, and they read back as
/// the records.
proof fn lemma_parse_body(rs: Seq<PhRecord>)
    requires
        forall|i: int| 0 <= i < rs.len() ==> storable(#[trigger] rs[i]),
    ensures
        parse_lines(lines_of(render_body(rs))) == Some(rs),
    decreases rs.len(),
{
    if rs.len() == 0 {
        assert(lines_of(render_body(rs)) =~= Seq::<Seq<u8>>::empty());
    } else {
        let r = rs[0];
        lemma_record_line_no_nl(r);
        lemma_split_prepend(record_line(r), render_body(rs.drop_first()), 10);
        assert(render_body(rs) =~= record_line(r) + seq![10u8] + render_body(rs.drop_first()));
        assert(forall|i: int| 0 <= i < rs.drop_first().len() ==> rs.drop_first()[i] == rs[i + 1]);
        lemma_parse_body(rs.drop_first());
        lemma_parse_record_line(r);
        let ls = lines_of(render_body(rs));
        assert(ls == seq![record_line(r)] + lines_of(render_body(rs.drop_first())));
        assert(ls.drop_first() =~= lines_of(render_body(rs.drop_first())));
        assert(parse_lines(ls) == Some(seq![r] + rs.drop_first()));
        assert(seq![r] + rs.drop_first() =~= rs);
    }
}

/// Writing a record list and re-parsing the file yields the same records:
/// the six-digit format is exact on every storable value.
pub proof fn lemma_ph_file_round_trip(rs: Seq<PhRecord>)
    requires
        forall|i: int| 0 <= i < rs.len() ==> storable(#[trigger] rs[i]),
    ensures
        parse_ph_file_spec(render_ph_file_spec(rs)) == Some(rs),
{
    let text = render_ph_file_spec(rs);
    assert(forall|k: int| 0 <= k < header_line().len() ==> header_line()[k] != 10);
    lemma_split_prepend(header_line(), render_body(rs), 10);
    assert(text =~= header_line() + seq![10u8] + render_body(rs));
    let ls = lines_of(text);
    assert(ls == seq![header_line()] + lines_of(render_body(rs)));
    assert(ls[0] == header_line());
    assert(ls.drop_first() =~= lines_of(render_body(rs)));
    lemma_parse_body(rs);
}

fn push_bytes(out: &mut Vec<u8>, p: &[u8])
    ensures
        final(out)@ == old(out)@ + p@,
{
    let mut k: usize = 0;
    while k < p.len()
        invariant
            k <= p@.len(),
            out@ == old(out)@ + p@.subrange(0, k as int),
        decreases p@.len() - k,
    {
        out.push(p[k]);
        k = k + 1;
        assert(out@ =~= old(out)@ + p@.subrange(0, k as int));
    }
    assert(out@ =~= old(out)@ + p@);
}

/// Renders one record's line, without the closing newline.
#[verifier::rlimit(30)]
fn push_record_line(out: &mut Vec<u8>, r: &PhRecord)
    requires
        storable(*r),
    ensures
        final(out)@ == old(out)@ + record_line(*r),
{
    let ghost base = out@;
    let f = format_fixed(r.lon);
    push_bytes(out, f.as_slice());
    out.push(44);
    proof {
        assert(out@ =~= base + (spec_format_fixed(r.lon as int) + seq![44u8]));
    }
    let ghost s1 = out@;
    let f = format_fixed(r.lat);
    push_bytes(out, f.as_slice());
    out.push(44);
    proof {
        assert(out@ =~= s1 + (spec_format_fixed(r.lat as int) + seq![44u8]));
    }
    let ghost s2 = out@;
    let f = format_fixed(r.time);
    push_bytes(out, f.as_slice());
    out.push(44);
    proof {
        assert(out@ =~= s2 + (spec_format_fixed(r.time as int) + seq![44u8]));
    }
    let ghost s3 = out@;
    let f = format_fixed(r.phv);
    push_bytes(out, f.as_slice());
    out.push(44);
    proof {
        assert(out@ =~= s3 + (spec_format_fixed(r.phv as int) + seq![44u8]));
    }
    let ghost s4 = out@;
    let f = format_fixed(r.amp);
    push_bytes(out, f.as_slice());
    proof {
        assert(out@ =~= s4 + spec_format_fixed(r.amp as int));
        assert(out@ =~= base + record_line(*r));
    }
}

/// Renders a whole per-event record file; see `render_ph_file_spec`. Parsing
/// the result yields the records back exactly.
pub fn render_ph_file(records: &Vec<PhRecord>) -> (out: Vec<u8>)
    requires
        forall|i: int| 0 <= i < records@.len() ==> storable(#[trigger] records@[i]),
    ensures
        out@ == render_ph_file_spec(records@),
        parse_ph_file_spec(out@) == Some(records@),
{
    let mut out = header_line_exec();
    out.push(10);
    let ghost whole = records@;
    let mut i: usize = 0;
    proof {
        assert(whole.subrange(0, whole.len() as int) =~= whole);
        assert(out@ =~= header_line() + seq![10u8]);
        assert(out@ + render_body(whole.subrange(0, whole.len() as int)) =~= render_ph_file_spec(
            whole));
    }
    while i < records.len()
        invariant
            i <= whole.len(),
            whole == records@,
            forall|k: int| 0 <= k < whole.len() ==> storable(#[trigger] whole[k]),
            out@ + render_body(whole.subrange(i as int, whole.len() as int))
                == render_ph_file_spec(whole),
        decreases whole.len() - i,
    {
        let ghost rem = whole.subrange(i as int, whole.len() as int);
        let ghost pre = out@;
        let r = records[i];
        proof {
            assert(rem[0] == r);
        }
        push_record_line(&mut out, &r);
        out.push(10);
        i = i + 1;
        proof {
            assert(rem.drop_first() =~= whole.subrange(i as int, whole.len() as int));
            assert(out@ =~= pre + record_line(r) + seq![10u8]);
            assert(out@ + render_body(whole.subrange(i as int, whole.len() as int)) =~= pre
                + render_body(rem));
        }
    }
    proof {
        assert(render_body(whole.subrange(whole.len() as int, whole.len() as int))
            =~= Seq::<u8>::empty());
        assert(out@ =~= render_ph_file_spec(whole));
        lemma_ph_file_round_trip(whole);
    }
    out
}

/// Reads one line back as a record; see `parse_record_line`.
fn parse_record_line_exec(line: &[u8]) -> (r: Option<PhRecord>)
    ensures
        r == parse_record_line(line@),
{
    let fs = split_on_byte(line, 44);
    if fs.len() != 5 {
        return None;
    }
    proof {
        assert(bytes_view(fs@)[0] == fs@[0]@);
        assert(bytes_view(fs@)[1] == fs@[1]@);
        assert(bytes_view(fs@)[2] == fs@[2]@);
        assert(bytes_view(fs@)[3] == fs@[3]@);
        assert(bytes_view(fs@)[4] == fs@[4]@);
    }
    let lon = match parse_decimal_bytes(fs[0].as_slice()) {
        Some(v) => v,
        None => {
            return None;
        },
    };
    let lat = match parse_decimal_bytes(fs[1].as_slice()) {
        Some(v) => v,
        None => {
            return None;
        },
    };
    let time = match parse_decimal_bytes(fs[2].as_slice()) {
        Some(v) => v,
        None => {
            return None;
        },
    };
    let phv = match parse_decimal_bytes(fs[3].as_slice()) {
        Some(v) => v,
        None => {
            return None;
        },
    };
    let amp = match parse_decimal_bytes(fs[4].as_slice()) {
        Some(v) => v,
        None => {
            return None;
        },
    };
    Some(PhRecord { lon, lat, time, phv, amp })
}

/// Reads a whole record file back; see `parse_ph_file_spec`.
pub fn parse_ph_file(text: &[u8]) -> (r: Option<Vec<PhRecord>>)
    ensures
        r is Some <==> parse_ph_file_spec(text@) is Some,
        r matches Some(v) ==> parse_ph_file_spec(text@) == Some(v@),
{
    let lines = split_on_byte(text, 10);
    let ghost lv = lines_of(text@);
    if lines.len() == 0 {
        return None;
    }
    let hdr = header_line_exec();
    proof {
        assert(lv[0] == lines@[0]@);
    }
    if !crate::bytes_eq(lines[0].as_slice(), hdr.as_slice()) {
        return None;
    }
    let ghost tail = lv.drop_first();
    let mut acc: Vec<PhRecord> = Vec::new();
    let mut i: usize = 1;
    proof {
        assert(lv.subrange(1, lv.len() as int) =~= tail);
        assert(acc@ + parse_lines(tail)->Some_0 =~= parse_lines(tail)->Some_0);
    }
    while i < lines.len()
        invariant
            1 <= i <= lines@.len(),
            lv == lines_of(text@),
            bytes_view(lines@) == lv,
            tail == lv.drop_first(),
            parse_lines(lv.subrange(i as int, lv.len() as int)) is Some ==> parse_lines(tail)
                == Some(acc@ + parse_lines(lv.subrange(i as int, lv.len() as int))->Some_0),
            parse_lines(lv.subrange(i as int, lv.len() as int)) is None ==> parse_lines(
                tail) is None,
        decreases lines@.len() - i,
    {
        let ghost rem = lv.subrange(i as int, lv.len() as int);
        let ghost pre = acc@;
        proof {
            assert(rem[0] == lines@[i as int]@);
            assert(rem.drop_first() =~= lv.subrange(i as int + 1, lv.len() as int));
        }
        match parse_record_line_exec(lines[i].as_slice()) {
            Some(r) => {
                acc.push(r);
                proof {
                    if parse_lines(rem.drop_first()) is Some {
                        assert(parse_lines(rem) == Some(seq![r] + parse_lines(
                            rem.drop_first())->Some_0));
                        assert(pre + (seq![r] + parse_lines(rem.drop_first())->Some_0)
                            =~= acc@ + parse_lines(rem.drop_first())->Some_0);
                    }
                }
            },
            None => {
                proof {
                    assert(parse_lines(rem) is None);
                }
                return None;
            },
        }
        i = i + 1;
    }
    proof {
        assert(lv.subrange(lines@.len() as int, lv.len() as int) =~= Seq::<Seq<u8>>::empty());
        assert(acc@ + Seq::<PhRecord>::empty() =~= acc@);
    }
    Some(acc)
}

} // verus!
