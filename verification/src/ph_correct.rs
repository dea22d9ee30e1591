//! The correction engine.
//!
//! For one event the engine orders candidate records by their distance to a
//! fixed reference point, then walks that order keeping a growing list of
//! accepted records. The first candidate seeds the list. Every later
//! candidate is compared against its nearest accepted neighbour: the
//! candidate's own measurement implies a path length, the neighbour's
//! velocity turns that path into an expected travel time, and the residual
//! between measured and expected time is wrapped into one period to resolve
//! phase-cycle ambiguity. A candidate within the misfit tolerance is accepted
//! with its time and velocity rewritten to agree with the neighbour; one
//! outside it is dropped. An event keeps its records only if enough stations
//! survive, both in count and as a fraction of the candidates.
//!
//! A correction that would drive the travel time or the velocity out of the
//! valid range rejects the candidate instead: the unchecked division there
//! would otherwise produce a meaningless record.

use vstd::prelude::*;
use vstd::arithmetic::div_mod::{
    lemma_div_pos_is_pos, lemma_div_is_ordered, lemma_fundamental_div_mod,
    lemma_fundamental_div_mod_converse, lemma_mod_bound,
};
use crate::points::{abs_i, dist_coords, spec_distance, valid_lat, valid_lon};
use crate::records::{all_wf, PhRecord, PHV_LIMIT, TIME_LIMIT};
use crate::bytes_eq;

verus! {

/// Distance from a record's station to the reference point.
pub open spec fn ref_dist(r: PhRecord, rlon: int, rlat: int) -> int {
    spec_distance(r.lat as int, r.lon as int, rlat, rlon)
}

/// Distance between the stations of two records.
pub open spec fn rec_dist(a: PhRecord, b: PhRecord) -> int {
    spec_distance(a.lat as int, a.lon as int, b.lat as int, b.lon as int)
}

/// `r` placed into `s` before the first element strictly farther from the
/// reference point.
pub open spec fn insert_by_ref(r: PhRecord, s: Seq<PhRecord>, rlon: int, rlat: int) -> Seq<
    PhRecord,
>
    decreases s.len(),
{
    if s.len() == 0 {
        seq![r]
    } else if ref_dist(r, rlon, rlat) < ref_dist(s[0], rlon, rlat) {
        seq![r] + s
    } else {
        seq![s[0]] + insert_by_ref(r, s.drop_first(), rlon, rlat)
    }
}

/// `s` sorted by ascending distance to the reference point, by insertion;
/// elements at equal distance keep their relative order.
pub open spec fn sort_by_ref(s: Seq<PhRecord>, rlon: int, rlat: int) -> Seq<PhRecord>
    decreases s.len(),
{
    if s.len() == 0 {
        Seq::empty()
    } else {
        insert_by_ref(s[0], sort_by_ref(s.drop_first(), rlon, rlat), rlon, rlat)
    }
}

/// Records appear in non-decreasing order of distance to the reference
/// point.
pub open spec fn sorted_by_ref_dist(s: Seq<PhRecord>, rlon: int, rlat: int) -> bool {
    forall|i: int|
        0 <= i < s.len() - 1 ==> ref_dist(#[trigger] s[i], rlon, rlat) <= ref_dist(s[i + 1],
            rlon, rlat)
}

/// Inserting into a sorted list keeps it sorted and adds exactly the new
/// record.
#[verifier::rlimit(50)]
pub proof fn lemma_insert_by_ref_sorted(r: PhRecord, s: Seq<PhRecord>, rlon: int, rlat: int)
    requires
        sorted_by_ref_dist(s, rlon, rlat),
    ensures
        sorted_by_ref_dist(insert_by_ref(r, s, rlon, rlat), rlon, rlat),
        insert_by_ref(r, s, rlon, rlat).to_multiset() == s.to_multiset().insert(r),
    decreases s.len(),
{
    broadcast use vstd::seq_lib::group_to_multiset_ensures;

    let out = insert_by_ref(r, s, rlon, rlat);
    if s.len() == 0 {
        assert(seq![r] =~= Seq::<PhRecord>::empty().push(r));
        assert(out.to_multiset() =~= s.to_multiset().insert(r));
    } else if ref_dist(r, rlon, rlat) < ref_dist(s[0], rlon, rlat) {
        assert(forall|i: int| 0 <= i < s.len() ==> out[i + 1] == s[i]);
        lemma_prepend_multiset(r, s);
    } else {
        let rest = s.drop_first();
        assert(sorted_by_ref_dist(rest, rlon, rlat)) by {
            assert(forall|i: int| 0 <= i < rest.len() ==> rest[i] == s[i + 1]);
        }
        lemma_insert_by_ref_sorted(r, rest, rlon, rlat);
        let ins = insert_by_ref(r, rest, rlon, rlat);
        assert(out == seq![s[0]] + ins);
        // the inserted list starts with the old head or the new record, and
        // the old head is at or before either
        assert(ins.len() > 0 && (ins[0] == r || (rest.len() > 0 && ins[0] == rest[0]))) by {
            if rest.len() > 0 && !(ref_dist(r, rlon, rlat) < ref_dist(rest[0], rlon, rlat)) {
                assert(ins == seq![rest[0]] + insert_by_ref(r, rest.drop_first(), rlon, rlat));
            }
        }
        assert(sorted_by_ref_dist(out, rlon, rlat)) by {
            assert(forall|i: int| 0 <= i < ins.len() ==> out[i + 1] == ins[i]);
            assert(ref_dist(out[0], rlon, rlat) <= ref_dist(out[1], rlon, rlat));
        }
        lemma_prepend_multiset(s[0], ins);
        assert(s =~= seq![s[0]] + rest);
        lemma_prepend_multiset(s[0], rest);
        assert(out.to_multiset() =~= s.to_multiset().insert(r)) by {
            assert(out.to_multiset() == ins.to_multiset().insert(s[0]));
            assert(ins.to_multiset() == rest.to_multiset().insert(r));
            assert(s.to_multiset() == rest.to_multiset().insert(s[0]));
        }
    }
}

/// Prepending one record inserts it into the list's multiset.
proof fn lemma_prepend_multiset(x: PhRecord, s: Seq<PhRecord>)
    ensures
        (seq![x] + s).to_multiset() == s.to_multiset().insert(x),
{
    broadcast use vstd::seq_lib::group_to_multiset_ensures;
    broadcast use vstd::seq_lib::lemma_multiset_commutative;

    assert(seq![x] =~= Seq::<PhRecord>::empty().push(x));
    assert((seq![x] + s).to_multiset() =~= s.to_multiset().insert(x));
}

/// The scan order really is the reference-distance order: sorting yields the
/// same records, as a multiset, in non-decreasing distance to the reference
/// point.
pub proof fn lemma_sort_by_ref_sorted(s: Seq<PhRecord>, rlon: int, rlat: int)
    ensures
        sorted_by_ref_dist(sort_by_ref(s, rlon, rlat), rlon, rlat),
        sort_by_ref(s, rlon, rlat).to_multiset() == s.to_multiset(),
    decreases s.len(),
{
    broadcast use vstd::seq_lib::group_to_multiset_ensures;

    if s.len() > 0 {
        lemma_sort_by_ref_sorted(s.drop_first(), rlon, rlat);
        lemma_insert_by_ref_sorted(s[0], sort_by_ref(s.drop_first(), rlon, rlat), rlon, rlat);
        assert(s =~= seq![s[0]] + s.drop_first());
        lemma_prepend_multiset(s[0], s.drop_first());
    }
}

pub proof fn lemma_insert_by_ref_wf(r: PhRecord, s: Seq<PhRecord>, rlon: int, rlat: int)
    requires
        r.wf(),
        all_wf(s),
    ensures
        all_wf(insert_by_ref(r, s, rlon, rlat)),
        insert_by_ref(r, s, rlon, rlat).len() == s.len() + 1,
    decreases s.len(),
{
    if s.len() > 0 && !(ref_dist(r, rlon, rlat) < ref_dist(s[0], rlon, rlat)) {
        assert(all_wf(s.drop_first()));
        lemma_insert_by_ref_wf(r, s.drop_first(), rlon, rlat);
    }
}

pub proof fn lemma_sort_by_ref_wf(s: Seq<PhRecord>, rlon: int, rlat: int)
    requires
        all_wf(s),
    ensures
        all_wf(sort_by_ref(s, rlon, rlat)),
        sort_by_ref(s, rlon, rlat).len() == s.len(),
    decreases s.len(),
{
    if s.len() > 0 {
        assert(all_wf(s.drop_first()));
        lemma_sort_by_ref_wf(s.drop_first(), rlon, rlat);
        lemma_insert_by_ref_wf(s[0], sort_by_ref(s.drop_first(), rlon, rlat), rlon, rlat);
    }
}

fn insert_by_ref_exec(r: PhRecord, v: Vec<PhRecord>, rlon: i64, rlat: i64) -> (out: Vec<PhRecord>)
    requires
        r.wf(),
        all_wf(v@),
        valid_lon(rlon as int),
        valid_lat(rlat as int),
    ensures
        out@ == insert_by_ref(r, v@, rlon as int, rlat as int),
    decreases v@.len(),
{
    let mut v = v;
    if v.len() == 0 {
        v.push(r);
        proof {
            assert(v@ =~= seq![r]);
        }
        v
    } else {
        let first = v[0];
        let dr = dist_coords(r.lat, r.lon, rlat, rlon);
        let d0 = dist_coords(first.lat, first.lon, rlat, rlon);
        if dr < d0 {
            let ghost pre = v@;
            v.insert(0, r);
            proof {
                assert(v@ =~= seq![r] + pre);
            }
            v
        } else {
            let ghost pre = v@;
            let h = v.remove(0);
            proof {
                assert(v@ =~= pre.drop_first());
                assert(all_wf(pre.drop_first())) by {
                    assert(forall|i: int|
                        0 <= i < pre.drop_first().len() ==> pre.drop_first()[i] == pre[i + 1]);
                }
            }
            let mut rest = insert_by_ref_exec(r, v, rlon, rlat);
            rest.insert(0, h);
            proof {
                assert(rest@ =~= seq![h] + insert_by_ref(r, pre.drop_first(), rlon as int,
                    rlat as int));
            }
            rest
        }
    }
}

fn sort_by_ref_exec(v: Vec<PhRecord>, rlon: i64, rlat: i64) -> (out: Vec<PhRecord>)
    requires
        all_wf(v@),
        valid_lon(rlon as int),
        valid_lat(rlat as int),
    ensures
        out@ == sort_by_ref(v@, rlon as int, rlat as int),
        all_wf(out@),
    decreases v@.len(),
{
    let mut v = v;
    if v.len() == 0 {
        v
    } else {
        let ghost pre = v@;
        let h = v.remove(0);
        proof {
            assert(v@ =~= pre.drop_first());
            assert(all_wf(pre.drop_first())) by {
                assert(forall|i: int|
                    0 <= i < pre.drop_first().len() ==> pre.drop_first()[i] == pre[i + 1]);
            }
        }
        let sorted = sort_by_ref_exec(v, rlon, rlat);
        proof {
            lemma_sort_by_ref_wf(pre.drop_first(), rlon as int, rlat as int);
        }
        let out = insert_by_ref_exec(h, sorted, rlon, rlat);
        proof {
            lemma_insert_by_ref_wf(h, sort_by_ref(pre.drop_first(), rlon as int, rlat as int),
                rlon as int, rlat as int);
        }
        out
    }
}

/// Index of the accepted record nearest to `cand`, scanning `acc[lo..]`;
/// among equally near records the latest-accepted one is taken.
pub open spec fn nearest_from(cand: PhRecord, acc: Seq<PhRecord>, lo: int) -> int
    decreases acc.len() - lo,
{
    if lo >= acc.len() - 1 {
        lo
    } else {
        let rest = nearest_from(cand, acc, lo + 1);
        if rec_dist(cand, acc[lo]) < rec_dist(cand, acc[rest]) {
            lo
        } else {
            rest
        }
    }
}

fn nearest_from_exec(cand: PhRecord, acc: &Vec<PhRecord>, lo: usize) -> (r: usize)
    requires
        cand.wf(),
        all_wf(acc@),
        lo < acc@.len(),
    ensures
        r == nearest_from(cand, acc@, lo as int),
        lo <= r < acc@.len(),
    decreases acc@.len() - lo,
{
    if lo >= acc.len() - 1 {
        lo
    } else {
        let rest = nearest_from_exec(cand, acc, lo + 1);
        let cl = acc[lo];
        let cr = acc[rest];
        let dl = dist_coords(cand.lat, cand.lon, cl.lat, cl.lon);
        let dr = dist_coords(cand.lat, cand.lon, cr.lat, cr.lon);
        if dl < dr {
            lo
        } else {
            rest
        }
    }
}

/// The residual `x` wrapped into `[-period/2, period/2)`: the misfit modulo
/// one full period, placed in the half-open interval around zero.
pub open spec fn wrap_residual(x: int, period: int) -> int {
    (x + period / 2) % period - period / 2
}

/// A residual of exactly half a period wraps to minus half a period, and a
/// residual of zero stays zero.
pub proof fn lemma_wrap_boundary(period: int)
    requires
        period > 0,
    ensures
        period % 2 == 0 ==> wrap_residual(period / 2, period) == -(period / 2),
        wrap_residual(0, period) == 0,
{
    let h = period / 2;
    assert(0 <= h < period) by {
        lemma_div_pos_is_pos(period, 2);
        lemma_div_is_ordered(period, 2 * period - 1, 2);
        lemma_fundamental_div_mod(2 * period - 1, 2);
    }
    assert(h % period == h) by {
        lemma_fundamental_div_mod_converse(h, period, 0, h);
    }
    if period % 2 == 0 {
        assert(h + h == period) by {
            lemma_fundamental_div_mod(period, 2);
        }
        assert(period % period == 0) by {
            lemma_fundamental_div_mod_converse(period, period, 1, 0);
        }
    }
}

/// Euclidean remainder of `a` modulo the positive `p`.
fn emod_i128(a: i128, p: i128) -> (r: i128)
    requires
        0 < p,
    ensures
        r == (a as int) % (p as int),
        0 <= r < p,
{
    proof {
        lemma_mod_bound(a as int, p as int);
    }
    let m = a % p;
    if m < 0 {
        proof {
            let na = -(a as int);
            lemma_mod_bound(na, p as int);
            lemma_fundamental_div_mod(na, p as int);
            let q = na / (p as int);
            let rr = na % (p as int);
            assert(rr > 0);
            assert(a as int == (p as int) * (-q - 1) + ((p as int) - rr))
                by (nonlinear_arith)
                requires
                    na == (p as int) * q + rr,
                    na == -(a as int),
            ;
            lemma_fundamental_div_mod_converse(a as int, p as int, -q - 1, (p as int) - rr);
        }
        m + p
    } else {
        proof {
            if a < 0 {
                let na = -(a as int);
                lemma_mod_bound(na, p as int);
                lemma_fundamental_div_mod(na, p as int);
                let q = na / (p as int);
                assert(na % (p as int) == 0);
                assert(a as int == (p as int) * (-q) + 0) by (nonlinear_arith)
                    requires
                        na == (p as int) * q,
                        na == -(a as int),
                ;
                lemma_fundamental_div_mod_converse(a as int, p as int, -q, 0);
            }
        }
        m
    }
}

/// One correction step: `cand` against its nearest accepted neighbour in
/// `acc`. `Some` carries the record with time and velocity rewritten; `None`
/// rejects the candidate, either for a misfit beyond `tmisfit` or because the
/// corrected time or velocity would leave the valid range.
pub open spec fn correct_one(cand: PhRecord, acc: Seq<PhRecord>, period: int, tmisfit: int)
    -> Option<PhRecord> {
    let nb = acc[nearest_from(cand, acc, 0)];
    let path = cand.phv * cand.time / 1_000_000;
    let expected = path * 1_000_000 / (nb.phv as int);
    let dt = wrap_residual(cand.time - expected, period);
    let nt = expected + dt;
    if abs_i(dt) > tmisfit {
        None
    } else if !(0 < nt <= TIME_LIMIT) {
        None
    } else {
        let np = path * 1_000_000 / nt;
        if !(0 < np <= PHV_LIMIT) {
            None
        } else {
            Some(PhRecord { lon: cand.lon, lat: cand.lat, time: nt as i64, phv: np as i64,
                amp: cand.amp })
        }
    }
}

fn correct_one_exec(cand: PhRecord, acc: &Vec<PhRecord>, period: i64, tmisfit: i64) -> (r:
    Option<PhRecord>)
    requires
        cand.wf(),
        all_wf(acc@),
        acc@.len() > 0,
        0 < period,
    ensures
        r == correct_one(cand, acc@, period as int, tmisfit as int),
        r is Some ==> r->Some_0.wf(),
{
    let ni = nearest_from_exec(cand, acc, 0);
    let nb = acc[ni];
    proof {
        assert(nb.wf());
        assert(0 <= (cand.phv as int) * (cand.time as int)
            <= 10_000_000_000_000_000_000_000) by (nonlinear_arith)
            requires
                0 < cand.phv as int <= PHV_LIMIT,
                0 < cand.time as int <= TIME_LIMIT,
                PHV_LIMIT == 1_000_000_000,
                TIME_LIMIT == 10_000_000_000_000,
        ;
        lemma_div_pos_is_pos((cand.phv as int) * (cand.time as int), 1_000_000);
        lemma_div_is_ordered((cand.phv as int) * (cand.time as int),
            10_000_000_000_000_000_000_000, 1_000_000);
    }
    let path: i128 = (cand.phv as i128) * (cand.time as i128) / 1_000_000;
    proof {
        lemma_div_pos_is_pos((path as int) * 1_000_000, nb.phv as int);
        lemma_div_is_ordered_den((path as int) * 1_000_000, nb.phv as int);
    }
    let expected: i128 = path * 1_000_000 / (nb.phv as i128);
    let h: i64 = period / 2;
    let dt: i128 = emod_i128((cand.time as i128) - expected + (h as i128), period as i128) - (
    h as i128);
    let adt: i128 = if dt < 0 {
        -dt
    } else {
        dt
    };
    if adt > tmisfit as i128 {
        return None;
    }
    let nt: i128 = expected + dt;
    if !(0 < nt && nt <= TIME_LIMIT as i128) {
        return None;
    }
    proof {
        lemma_div_pos_is_pos((path as int) * 1_000_000, nt as int);
        lemma_div_is_ordered_den((path as int) * 1_000_000, nt as int);
    }
    let np: i128 = path * 1_000_000 / nt;
    if !(0 < np && np <= PHV_LIMIT as i128) {
        return None;
    }
    Some(PhRecord { lon: cand.lon, lat: cand.lat, time: nt as i64, phv: np as i64, amp: cand.amp })
}

/// Dividing a non-negative number by a positive one does not increase it.
proof fn lemma_div_is_ordered_den(x: int, d: int)
    requires
        0 <= x,
        0 < d,
    ensures
        x / d <= x,
{
    vstd::arithmetic::div_mod::lemma_div_is_ordered_by_denominator(x, 1, d);
    lemma_fundamental_div_mod_converse(x, 1, x, 0);
}

/// The sequential pass: candidates in `pending` are folded into the accepted
/// list `acc`, the first candidate unconditionally, every later one through
/// `correct_one`. The result is the final accepted list, in acceptance order.
pub open spec fn scan_records(pending: Seq<PhRecord>, acc: Seq<PhRecord>, period: int,
    tmisfit: int) -> Seq<PhRecord>
    decreases pending.len(),
{
    if pending.len() == 0 {
        acc
    } else {
        let c = pending[0];
        if acc.len() == 0 {
            scan_records(pending.drop_first(), seq![c], period, tmisfit)
        } else {
            match correct_one(c, acc, period, tmisfit) {
                Some(c2) => scan_records(pending.drop_first(), acc.push(c2), period, tmisfit),
                None => scan_records(pending.drop_first(), acc, period, tmisfit),
            }
        }
    }
}

/// The accepted list never outgrows the candidates it was fed.
pub proof fn lemma_scan_len(pending: Seq<PhRecord>, acc: Seq<PhRecord>, period: int, tmisfit: int)
    ensures
        scan_records(pending, acc, period, tmisfit).len() <= acc.len() + pending.len(),
    decreases pending.len(),
{
    if pending.len() > 0 {
        let c = pending[0];
        if acc.len() == 0 {
            lemma_scan_len(pending.drop_first(), seq![c], period, tmisfit);
        } else {
            match correct_one(c, acc, period, tmisfit) {
                Some(c2) => lemma_scan_len(pending.drop_first(), acc.push(c2), period, tmisfit),
                None => lemma_scan_len(pending.drop_first(), acc, period, tmisfit),
            }
        }
    }
}

fn scan_records_exec(sorted: &Vec<PhRecord>, period: i64, tmisfit: i64) -> (out: Vec<PhRecord>)
    requires
        all_wf(sorted@),
        0 < period,
    ensures
        out@ == scan_records(sorted@, Seq::<PhRecord>::empty(), period as int, tmisfit as int),
        all_wf(out@),
{
    let mut acc: Vec<PhRecord> = Vec::new();
    let mut i: usize = 0;
    proof {
        assert(acc@ =~= Seq::<PhRecord>::empty());
        assert(sorted@.subrange(0, sorted@.len() as int) =~= sorted@);
    }
    while i < sorted.len()
        invariant
            i <= sorted@.len(),
            all_wf(sorted@),
            all_wf(acc@),
            0 < period,
            scan_records(sorted@, Seq::<PhRecord>::empty(), period as int, tmisfit as int)
                == scan_records(sorted@.subrange(i as int, sorted@.len() as int), acc@,
                period as int, tmisfit as int),
        decreases sorted@.len() - i,
    {
        let ghost rem = sorted@.subrange(i as int, sorted@.len() as int);
        let ghost pre_acc = acc@;
        let c = sorted[i];
        if acc.len() == 0 {
            acc.push(c);
            proof {
                assert(acc@ =~= seq![c]);
            }
        } else {
            match correct_one_exec(c, &acc, period, tmisfit) {
                Some(c2) => {
                    acc.push(c2);
                    proof {
                        assert(all_wf(pre_acc.push(c2))) by {
                            assert(forall|k: int|
                                0 <= k < pre_acc.len() ==> pre_acc.push(c2)[k] == pre_acc[k]);
                        }
                    }
                },
                None => {},
            }
        }
        i = i + 1;
        proof {
            assert(rem[0] == c);
            assert(rem.drop_first() =~= sorted@.subrange(i as int, sorted@.len() as int));
        }
    }
    proof {
        assert(sorted@.subrange(sorted@.len() as int, sorted@.len() as int)
            =~= Seq::<PhRecord>::empty());
    }
    acc
}

/// The corrected record list for one event, or `None` when the event is
/// rejected: too few candidates, too few survivors, or too small a surviving
/// fraction. `nsta_per` is that fraction scaled by a million.
pub open spec fn correct_event_spec(records: Seq<PhRecord>, period: int, nsta: int, nsta_per: int,
    tmisfit: int, rlon: int, rlat: int) -> Option<Seq<PhRecord>> {
    if records.len() < nsta {
        None
    } else {
        let out = scan_records(sort_by_ref(records, rlon, rlat), Seq::empty(), period, tmisfit);
        if out.len() < nsta || out.len() * 1_000_000 < nsta_per * records.len() {
            None
        } else {
            Some(out)
        }
    }
}

/// An event with fewer candidates than the minimum station count is rejected
/// outright: no record of it survives.
pub proof fn lemma_small_event_rejected(records: Seq<PhRecord>, period: int, nsta: int,
    nsta_per: int, tmisfit: int, rlon: int, rlat: int)
    requires
        records.len() < nsta,
    ensures
        correct_event_spec(records, period, nsta, nsta_per, tmisfit, rlon, rlat) is None,
{
}

/// An event's output never holds more records than it had candidates.
pub proof fn lemma_event_output_bounded(records: Seq<PhRecord>, period: int, nsta: int,
    nsta_per: int, tmisfit: int, rlon: int, rlat: int)
    ensures
        match correct_event_spec(records, period, nsta, nsta_per, tmisfit, rlon, rlat) {
            Some(out) => out.len() <= records.len(),
            None => true,
        },
{
    if records.len() >= nsta {
        lemma_sort_by_ref_wf_free(records, rlon, rlat);
        lemma_scan_len(sort_by_ref(records, rlon, rlat), Seq::empty(), period, tmisfit);
    }
}

/// Sorting keeps the number of records, whatever they hold.
proof fn lemma_sort_by_ref_wf_free(s: Seq<PhRecord>, rlon: int, rlat: int)
    ensures
        sort_by_ref(s, rlon, rlat).len() == s.len(),
    decreases s.len(),
{
    if s.len() > 0 {
        lemma_sort_by_ref_wf_free(s.drop_first(), rlon, rlat);
        lemma_insert_len_free(s[0], sort_by_ref(s.drop_first(), rlon, rlat), rlon, rlat);
    }
}

proof fn lemma_insert_len_free(r: PhRecord, s: Seq<PhRecord>, rlon: int, rlat: int)
    ensures
        insert_by_ref(r, s, rlon, rlat).len() == s.len() + 1,
    decreases s.len(),
{
    if s.len() > 0 && !(ref_dist(r, rlon, rlat) < ref_dist(s[0], rlon, rlat)) {
        lemma_insert_len_free(r, s.drop_first(), rlon, rlat);
    }
}

/// Corrects one event's candidate records; see `correct_event_spec`.
pub fn correct_event_ph_records(records: Vec<PhRecord>, period: i64, nsta: usize, nsta_per: i64,
    tmisfit: i64, ref_lon: i64, ref_lat: i64) -> (r: Option<Vec<PhRecord>>)
    requires
        all_wf(records@),
        valid_lon(ref_lon as int),
        valid_lat(ref_lat as int),
        0 < period,
    ensures
        (match (r, correct_event_spec(records@, period as int, nsta as int, nsta_per as int,
            tmisfit as int, ref_lon as int, ref_lat as int)) {
            (Some(v), Some(sv)) => v@ == sv && all_wf(v@),
            (None, None) => true,
            _ => false,
        }),
{
    let total = records.len();
    if total < nsta {
        return None;
    }
    let sorted = sort_by_ref_exec(records, ref_lon, ref_lat);
    let out = scan_records_exec(&sorted, period, tmisfit);
    let kept = out.len();
    if kept < nsta {
        return None;
    }
    proof {
        assert((i64::MIN as int) * (usize::MAX as int) <= (nsta_per as int) * (total as int)
            <= (i64::MAX as int) * (usize::MAX as int)) by (nonlinear_arith)
            requires
                i64::MIN as int <= nsta_per as int <= i64::MAX as int,
                0 <= total as int <= usize::MAX as int,
        ;
    }
    if (kept as i128) * 1_000_000 < (nsta_per as i128) * (total as i128) {
        return None;
    }
    Some(out)
}

/// The pairs with their event identifiers read as byte strings.
pub open spec fn pairs_view(s: Seq<(Vec<u8>, PhRecord)>) -> Seq<(Seq<u8>, PhRecord)> {
    s.map_values(|p: (Vec<u8>, PhRecord)| (p.0@, p.1))
}

/// The distinct event identifiers of `s`, in order of first appearance.
pub open spec fn distinct_keys(s: Seq<(Seq<u8>, PhRecord)>) -> Seq<Seq<u8>>
    decreases s.len(),
{
    if s.len() == 0 {
        Seq::empty()
    } else {
        let rest = distinct_keys(s.drop_last());
        if rest.contains(s.last().0) {
            rest
        } else {
            rest.push(s.last().0)
        }
    }
}

/// The records of `s` carrying the event identifier `k`, in input order.
pub open spec fn values_for(s: Seq<(Seq<u8>, PhRecord)>, k: Seq<u8>) -> Seq<PhRecord>
    decreases s.len(),
{
    if s.len() == 0 {
        Seq::empty()
    } else {
        let rest = values_for(s.drop_last(), k);
        if s.last().0 == k {
            rest.push(s.last().1)
        } else {
            rest
        }
    }
}

/// The identifiers listed by `distinct_keys` are pairwise distinct.
proof fn lemma_distinct_keys_distinct(s: Seq<(Seq<u8>, PhRecord)>)
    ensures
        forall|i: int, j: int|
            0 <= i < j < distinct_keys(s).len() ==> distinct_keys(s)[i] != distinct_keys(s)[j],
    decreases s.len(),
{
    if s.len() > 0 {
        lemma_distinct_keys_distinct(s.drop_last());
        let rest = distinct_keys(s.drop_last());
        if !rest.contains(s.last().0) {
            assert forall|i: int, j: int|
                0 <= i < j < distinct_keys(s).len() implies distinct_keys(s)[i]
                != distinct_keys(s)[j] by {
                if j == rest.len() as int {
                    if rest[i] == s.last().0 {
                        assert(rest.contains(s.last().0));
                    }
                }
            }
        }
    }
}

/// An identifier never seen among the pairs has no records.
proof fn lemma_values_absent(s: Seq<(Seq<u8>, PhRecord)>, k: Seq<u8>)
    requires
        !distinct_keys(s).contains(k),
    ensures
        values_for(s, k) == Seq::<PhRecord>::empty(),
    decreases s.len(),
{
    if s.len() > 0 {
        let rest = distinct_keys(s.drop_last());
        if s.last().0 == k {
            if rest.contains(k) {
                assert(distinct_keys(s).contains(k));
            } else {
                assert(distinct_keys(s) == rest.push(k));
                assert(distinct_keys(s)[rest.len() as int] == k);
                assert(distinct_keys(s).contains(k));
            }
            assert(false);
        }
        if rest.contains(k) {
            let i = choose|i: int| 0 <= i < rest.len() && rest[i] == k;
            if rest.contains(s.last().0) {
                assert(distinct_keys(s).contains(k));
            } else {
                assert(distinct_keys(s)[i] == k);
                assert(distinct_keys(s).contains(k));
            }
            assert(false);
        }
        lemma_values_absent(s.drop_last(), k);
    }
}

/// Every record grouped under any identifier is well formed when the pairs
/// all carry well-formed records.
proof fn lemma_values_for_wf(s: Seq<(Seq<u8>, PhRecord)>, k: Seq<u8>)
    requires
        forall|i: int| 0 <= i < s.len() ==> (#[trigger] s[i]).1.wf(),
    ensures
        all_wf(values_for(s, k)),
    decreases s.len(),
{
    if s.len() > 0 {
        assert(forall|i: int|
            0 <= i < s.drop_last().len() ==> (#[trigger] s.drop_last()[i]).1.wf()) by {
            assert(forall|i: int|
                0 <= i < s.drop_last().len() ==> s.drop_last()[i] == s[i]);
        }
        lemma_values_for_wf(s.drop_last(), k);
        let rest = values_for(s.drop_last(), k);
        if s.last().0 == k {
            assert(s.last().1.wf());
            assert(all_wf(rest.push(s.last().1))) by {
                assert(forall|i: int| 0 <= i < rest.len() ==> rest.push(s.last().1)[i] == rest[i]);
            }
        }
    }
}

/// Groups the `(event, record)` pairs by event identifier: one group per
/// distinct identifier, in order of first appearance, each holding that
/// event's records in input order.
pub fn group_by_event(records: &Vec<(Vec<u8>, PhRecord)>) -> (groups: Vec<(Vec<u8>, Vec<
    PhRecord>)>)
    ensures
        groups@.len() == distinct_keys(pairs_view(records@)).len(),
        forall|g: int|
            0 <= g < groups@.len() ==> (#[trigger] groups@[g]).0@ == distinct_keys(pairs_view(
                records@))[g] && groups@[g].1@ == values_for(pairs_view(records@),
                distinct_keys(pairs_view(records@))[g]),
{
    let ghost sv = pairs_view(records@);
    let mut groups: Vec<(Vec<u8>, Vec<PhRecord>)> = Vec::new();
    let mut n: usize = 0;
    proof {
        assert(sv.subrange(0, 0) =~= Seq::<(Seq<u8>, PhRecord)>::empty());
    }
    while n < records.len()
        invariant
            n <= records@.len(),
            sv == pairs_view(records@),
            groups@.len() == distinct_keys(sv.subrange(0, n as int)).len(),
            forall|g: int|
                0 <= g < groups@.len() ==> (#[trigger] groups@[g]).0@ == distinct_keys(
                    sv.subrange(0, n as int))[g] && groups@[g].1@ == values_for(
                    sv.subrange(0, n as int), distinct_keys(sv.subrange(0, n as int))[g]),
        decreases records@.len() - n,
    {
        let ghost prefix = sv.subrange(0, n as int);
        let ghost prefix2 = sv.subrange(0, n as int + 1);
        proof {
            assert(prefix2.drop_last() =~= prefix);
            assert(prefix2.last() == sv[n as int]);
        }
        let key: &Vec<u8> = &records[n].0;
        let rec: PhRecord = records[n].1;
        let ghost dk = distinct_keys(prefix);
        let mut j: usize = 0;
        let mut found: bool = false;
        while j < groups.len() && !found
            invariant
                j <= groups@.len(),
                groups@.len() == dk.len(),
                forall|g: int|
                    0 <= g < groups@.len() ==> (#[trigger] groups@[g]).0@ == dk[g]
                        && groups@[g].1@ == values_for(prefix, dk[g]),
                forall|jj: int| 0 <= jj < j ==> dk[jj] != key@,
                found ==> j < groups@.len() && dk[j as int] == key@,
            decreases groups@.len() - j + (if found { 0int } else { 1int }),
        {
            if bytes_eq(groups[j].0.as_slice(), key.as_slice()) {
                found = true;
            } else {
                j = j + 1;
            }
        }
        if found {
            let (kv, mut vals) = groups.remove(j);
            vals.push(rec);
            let ghost updated = (kv, vals);
            groups.insert(j, (kv, vals));
            proof {
                lemma_distinct_keys_distinct(prefix);
                assert(dk.contains(key@)) by {
                    assert(dk[j as int] == key@);
                }
                assert(distinct_keys(prefix2) == dk);
                assert forall|g: int| 0 <= g < groups@.len() implies (#[trigger] groups@[g]).0@
                    == dk[g] && groups@[g].1@ == values_for(prefix2, dk[g]) by {
                    if g == j {
                        assert(groups@[g].1@ == values_for(prefix, dk[g]).push(rec));
                        assert(values_for(prefix2, dk[g]) == values_for(prefix, dk[g]).push(
                            rec));
                    } else {
                        assert(values_for(prefix2, dk[g]) == values_for(prefix, dk[g]));
                    }
                }
            }
        } else {
            proof {
                if dk.contains(key@) {
                    let i = choose|i: int| 0 <= i < dk.len() && dk[i] == key@;
                    assert(groups@[i].0@ == key@);
                    assert(false);
                }
                assert(distinct_keys(prefix2) == dk.push(key@));
                lemma_values_absent(prefix, key@);
            }
            let kcopy = crate::points::clone_bytes(key);
            let mut vals: Vec<PhRecord> = Vec::new();
            vals.push(rec);
            groups.push((kcopy, vals));
            proof {
                let dk2 = distinct_keys(prefix2);
                assert forall|g: int| 0 <= g < groups@.len() implies (#[trigger] groups@[g]).0@
                    == dk2[g] && groups@[g].1@ == values_for(prefix2, dk2[g]) by {
                    if g < groups@.len() - 1 {
                        assert(dk2[g] == dk[g]);
                        assert(values_for(prefix2, dk[g]) == values_for(prefix, dk[g]));
                    } else {
                        assert(dk2[g] == key@);
                        assert(values_for(prefix2, key@) == values_for(prefix, key@).push(rec));
                        assert(groups@[g].1@ =~= seq![rec]);
                        assert(values_for(prefix2, key@) =~= seq![rec]);
                    }
                }
            }
        }
        n = n + 1;
    }
    proof {
        assert(sv.subrange(0, records@.len() as int) =~= sv);
    }
    groups
}

/// The per-event results for the identifiers in `keys`, in that order,
/// keeping only the events the engine accepts.
pub open spec fn corrected_groups(keys: Seq<Seq<u8>>, sv: Seq<(Seq<u8>, PhRecord)>, period: int,
    nsta: int, nsta_per: int, tmisfit: int, rlon: int, rlat: int) -> Seq<(Seq<u8>, Seq<PhRecord>)>
    decreases keys.len(),
{
    if keys.len() == 0 {
        Seq::empty()
    } else {
        let rest = corrected_groups(keys.drop_first(), sv, period, nsta, nsta_per, tmisfit, rlon,
            rlat);
        match correct_event_spec(values_for(sv, keys[0]), period, nsta, nsta_per, tmisfit, rlon,
            rlat) {
            Some(v) => seq![(keys[0], v)] + rest,
            None => rest,
        }
    }
}

/// The whole batch: each event's records grouped, corrected, and kept only
/// where the engine accepts the event, keyed by event identifier in order of
/// first appearance.
pub open spec fn correct_all_spec(sv: Seq<(Seq<u8>, PhRecord)>, period: int, nsta: int,
    nsta_per: int, tmisfit: int, rlon: int, rlat: int) -> Seq<(Seq<u8>, Seq<PhRecord>)> {
    corrected_groups(distinct_keys(sv), sv, period, nsta, nsta_per, tmisfit, rlon, rlat)
}

/// Every event the batch emits carries no more records than it had
/// candidates.
pub proof fn lemma_batch_output_bounded(keys: Seq<Seq<u8>>, sv: Seq<(Seq<u8>, PhRecord)>,
    period: int, nsta: int, nsta_per: int, tmisfit: int, rlon: int, rlat: int)
    ensures
        forall|i: int|
            0 <= i < corrected_groups(keys, sv, period, nsta, nsta_per, tmisfit, rlon,
                rlat).len() ==> {
                let g = #[trigger] corrected_groups(keys, sv, period, nsta, nsta_per, tmisfit,
                    rlon, rlat)[i];
                g.1.len() <= values_for(sv, g.0).len()
            },
    decreases keys.len(),
{
    if keys.len() > 0 {
        lemma_batch_output_bounded(keys.drop_first(), sv, period, nsta, nsta_per, tmisfit, rlon,
            rlat);
        lemma_event_output_bounded(values_for(sv, keys[0]), period, nsta, nsta_per, tmisfit,
            rlon, rlat);
        let cg = corrected_groups(keys, sv, period, nsta, nsta_per, tmisfit, rlon, rlat);
        let rest = corrected_groups(keys.drop_first(), sv, period, nsta, nsta_per, tmisfit, rlon,
            rlat);
        match correct_event_spec(values_for(sv, keys[0]), period, nsta, nsta_per, tmisfit, rlon,
            rlat) {
            Some(v) => {
                assert(forall|i: int| 1 <= i < cg.len() ==> cg[i] == rest[i - 1]);
            },
            None => {
                assert(forall|i: int| 0 <= i < cg.len() ==> cg[i] == rest[i]);
            },
        }
    }
}

/// An event with fewer candidates than the minimum station count never
/// appears in the batch output at all.
pub proof fn lemma_batch_small_event_absent(keys: Seq<Seq<u8>>, sv: Seq<(Seq<u8>, PhRecord)>,
    k: Seq<u8>, period: int, nsta: int, nsta_per: int, tmisfit: int, rlon: int, rlat: int)
    requires
        values_for(sv, k).len() < nsta,
    ensures
        forall|i: int|
            0 <= i < corrected_groups(keys, sv, period, nsta, nsta_per, tmisfit, rlon,
                rlat).len() ==> (#[trigger] corrected_groups(keys, sv, period, nsta, nsta_per,
                tmisfit, rlon, rlat)[i]).0 != k,
    decreases keys.len(),
{
    if keys.len() > 0 {
        lemma_batch_small_event_absent(keys.drop_first(), sv, k, period, nsta, nsta_per, tmisfit,
            rlon, rlat);
        let cg = corrected_groups(keys, sv, period, nsta, nsta_per, tmisfit, rlon, rlat);
        let rest = corrected_groups(keys.drop_first(), sv, period, nsta, nsta_per, tmisfit, rlon,
            rlat);
        match correct_event_spec(values_for(sv, keys[0]), period, nsta, nsta_per, tmisfit, rlon,
            rlat) {
            Some(v) => {
                lemma_small_event_rejected(values_for(sv, k), period, nsta, nsta_per, tmisfit,
                    rlon, rlat);
                assert(keys[0] != k);
                assert(forall|i: int| 1 <= i < cg.len() ==> cg[i] == rest[i - 1]);
            },
            None => {
                assert(forall|i: int| 0 <= i < cg.len() ==> cg[i] == rest[i]);
            },
        }
    }
}

/// The output pairs with identifiers and record lists read as sequences.
pub open spec fn groups_view(s: Seq<(Vec<u8>, Vec<PhRecord>)>) -> Seq<(Seq<u8>, Seq<PhRecord>)> {
    s.map_values(|p: (Vec<u8>, Vec<PhRecord>)| (p.0@, p.1@))
}

/// Groups the accepted `(event, record)` pairs by event, runs the correction
/// engine on each event independently, and returns the corrected record
/// lists of the accepted events. `ref_point` is `(longitude, latitude)` in
/// micro-degrees; `period` and `tmisfit` are micro-seconds; `nsta_per` is the
/// minimum accepted fraction scaled by a million.
pub fn correct_ph_records(ph_records: Vec<(Vec<u8>, PhRecord)>, period: i64, nsta: usize,
    nsta_per: i64, tmisfit: i64, ref_point: (i64, i64)) -> (out: Vec<(Vec<u8>, Vec<PhRecord>)>)
    requires
        forall|i: int| 0 <= i < ph_records@.len() ==> (#[trigger] ph_records@[i]).1.wf(),
        valid_lon(ref_point.0 as int),
        valid_lat(ref_point.1 as int),
        0 < period,
    ensures
        groups_view(out@) == correct_all_spec(pairs_view(ph_records@), period as int, nsta as int,
            nsta_per as int, tmisfit as int, ref_point.0 as int, ref_point.1 as int),
{
    let (ref_lon, ref_lat) = ref_point;
    let ghost sv = pairs_view(ph_records@);
    let ghost dk = distinct_keys(sv);
    let ghost full = correct_all_spec(sv, period as int, nsta as int, nsta_per as int,
        tmisfit as int, ref_point.0 as int, ref_point.1 as int);
    let mut groups = group_by_event(&ph_records);
    let ghost all_groups = groups@;
    let mut out: Vec<(Vec<u8>, Vec<PhRecord>)> = Vec::new();
    let mut g: usize = 0;
    proof {
        assert(dk.subrange(0, dk.len() as int) =~= dk);
        assert(groups_view(Seq::<(Vec<u8>, Vec<PhRecord>)>::empty())
            =~= Seq::<(Seq<u8>, Seq<PhRecord>)>::empty());
    }
    while g < groups.len()
        invariant
            g <= groups@.len(),
            groups@ == all_groups,
            all_groups.len() == dk.len(),
            forall|i: int|
                0 <= i < all_groups.len() ==> (#[trigger] all_groups[i]).0@ == dk[i]
                    && all_groups[i].1@ == values_for(sv, dk[i]),
            forall|i: int| 0 <= i < sv.len() ==> (#[trigger] sv[i]).1.wf(),
            valid_lon(ref_lon as int),
            valid_lat(ref_lat as int),
            0 < period,
            groups_view(out@) + corrected_groups(dk.subrange(g as int, dk.len() as int), sv,
                period as int, nsta as int, nsta_per as int, tmisfit as int, ref_lon as int,
                ref_lat as int) == full,
        decreases groups@.len() - g,
    {
        let ghost rem = dk.subrange(g as int, dk.len() as int);
        proof {
            assert(rem[0] == dk[g as int]);
            assert(rem.drop_first() =~= dk.subrange(g as int + 1, dk.len() as int));
            lemma_values_for_wf(sv, dk[g as int]);
        }
        let key = crate::points::clone_bytes(&groups[g].0);
        let vals = clone_records(&groups[g].1);
        let ghost pre_out = out@;
        match correct_event_ph_records(vals, period, nsta, nsta_per, tmisfit, ref_lon, ref_lat) {
            Some(v) => {
                out.push((key, v));
                proof {
                    assert(groups_view(out@) =~= groups_view(pre_out).push((dk[g as int],
                        correct_event_spec(values_for(sv, dk[g as int]), period as int,
                        nsta as int, nsta_per as int, tmisfit as int, ref_lon as int,
                        ref_lat as int)->Some_0)));
                    assert(groups_view(out@) + corrected_groups(rem.drop_first(), sv,
                        period as int, nsta as int, nsta_per as int, tmisfit as int,
                        ref_lon as int, ref_lat as int) =~= groups_view(pre_out)
                        + corrected_groups(rem, sv, period as int, nsta as int, nsta_per as int,
                        tmisfit as int, ref_lon as int, ref_lat as int));
                }
            },
            None => {},
        }
        g = g + 1;
    }
    proof {
        assert(dk.subrange(dk.len() as int, dk.len() as int) =~= Seq::<Seq<u8>>::empty());
    }
    out
}

/// A field-for-field copy of a record list.
pub fn clone_records(v: &Vec<PhRecord>) -> (r: Vec<PhRecord>)
    ensures
        r@ == v@,
{
    let mut out: Vec<PhRecord> = Vec::new();
    let mut k: usize = 0;
    while k < v.len()
        invariant
            k <= v@.len(),
            out@ == v@.subrange(0, k as int),
        decreases v@.len() - k,
    {
        out.push(v[k]);
        k = k + 1;
        assert(out@ =~= v@.subrange(0, k as int));
    }
    assert(out@ =~= v@);
    out
}

} // verus!
