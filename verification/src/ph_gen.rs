//! The measurement extractor.
//!
//! For a fixed target period each station contributes two whitespace-columned
//! text curves: a signal-to-noise curve (period in the second column, ratio
//! in the third) and a dispersion curve (period in the third column, phase
//! velocity in the fifth, amplitude in the sixth). The extractor linearly
//! interpolates each curve at the target period, applies the distance and
//! signal-to-noise gates, and derives the travel time from the record's
//! epicentral distance.
//!
//! A curve is read only if its period column is strictly ascending: the
//! interpolation scan silently assumes that order, so it is checked here at
//! the boundary and a curve out of order yields no value. A malformed numeric
//! field anywhere in a curve also yields no value: the station is dropped,
//! never the batch.

use vstd::prelude::*;
use vstd::arithmetic::div_mod::lemma_fundamental_div_mod_converse;
use crate::fixed::{in_val_range, parse_decimal, parse_decimal_bytes, VAL_LIMIT};
use crate::points::abs_i;
use crate::records::{DistRecord, PhRecord, PHV_LIMIT, TIME_LIMIT};
use crate::text::{bytes_view, lines_of, split_on_byte, tokens_of, tokens_of_line};

verus! {

/// Truncating division, as the machine divides: toward zero.
pub open spec fn tdiv(a: int, b: int) -> int {
    if a >= 0 {
        a / b
    } else {
        -((-a) / b)
    }
}

/// Exact truncating division recovers the factor.
pub proof fn lemma_tdiv_exact(y: int, q: int)
    requires
        y > 0,
    ensures
        tdiv(y * q, y) == q,
{
    if y * q >= 0 {
        assert(q >= 0) by (nonlinear_arith)
            requires
                y > 0,
                y * q >= 0,
        ;
        assert(y * q == q * y);
        lemma_fundamental_div_mod_converse(y * q, y, q, 0);
    } else {
        assert(q < 0) by (nonlinear_arith)
            requires
                y > 0,
                y * q < 0,
        ;
        assert(-(y * q) == y * (-q)) by (nonlinear_arith);
        assert(y * (-q) == (-q) * y);
        lemma_fundamental_div_mod_converse(y * (-q), y, -q, 0);
    }
}

/// One reading of an interpolation node list: what it says at period
/// `pts[i].0` is exactly `pts[i].1`, linearly in between.
pub open spec fn lerp(a: (i64, i64), b: (i64, i64), t: int) -> int {
    a.1 + tdiv((t - a.0) * (b.1 - a.1), b.0 - a.0)
}

/// Linear interpolation at period `t` over the node list `pts`: the first
/// consecutive pair whose right period exceeds `t` interpolates; with no
/// such pair, or an interpolated value out of the storable range, there is
/// no value.
pub open spec fn interp_at(pts: Seq<(i64, i64)>, t: int) -> Option<int>
    decreases pts.len(),
{
    if pts.len() < 2 {
        None
    } else if pts[1].0 > t {
        let v = lerp(pts[0], pts[1], t);
        if in_val_range(v) {
            Some(v)
        } else {
            None
        }
    } else {
        interp_at(pts.drop_first(), t)
    }
}

/// Node periods strictly increase along the list.
pub open spec fn strictly_ascending(pts: Seq<(i64, i64)>) -> bool {
    forall|i: int| 0 <= i < pts.len() - 1 ==> (#[trigger] pts[i]).0 < pts[i + 1].0
}

/// Both coordinates of every node are storable values.
pub open spec fn curve_in_range(pts: Seq<(i64, i64)>) -> bool {
    forall|i: int|
        0 <= i < pts.len() ==> in_val_range((#[trigger] pts[i]).0 as int) && in_val_range(
            pts[i].1 as int)
}

pub proof fn lemma_ascending_chain(pts: Seq<(i64, i64)>, i: int, j: int)
    requires
        strictly_ascending(pts),
        0 <= i < j < pts.len(),
    ensures
        pts[i].0 < pts[j].0,
    decreases j - i,
{
    if i + 1 < j {
        lemma_ascending_chain(pts, i + 1, j);
    }
}

/// Interpolation at a sample's own period returns exactly that sample's
/// value, for every sample but the last.
pub proof fn lemma_interp_exact_at_sample(pts: Seq<(i64, i64)>, i: int)
    requires
        strictly_ascending(pts),
        curve_in_range(pts),
        0 <= i < pts.len() - 1,
    ensures
        interp_at(pts, pts[i].0 as int) == Some(pts[i].1 as int),
    decreases i,
{
    let t = pts[i].0 as int;
    if i == 0 {
        assert(pts[1].0 > t);
        assert(lerp(pts[0], pts[1], t) == pts[0].1) by {
            assert((t - pts[0].0) * (pts[1].1 - pts[0].1) == 0) by (nonlinear_arith)
                requires
                    t == pts[0].0 as int,
            ;
            assert(tdiv(0, pts[1].0 - pts[0].0) == 0) by {
                lemma_fundamental_div_mod_converse(0, pts[1].0 - pts[0].0, 0, 0);
            }
        }
    } else {
        assert(pts[1].0 <= t) by {
            if i > 1 {
                lemma_ascending_chain(pts, 1, i);
            }
        }
        let rest = pts.drop_first();
        assert(strictly_ascending(rest) && curve_in_range(rest)) by {
            assert(forall|k: int| 0 <= k < rest.len() ==> rest[k] == pts[k + 1]);
        }
        assert(rest[i - 1] == pts[i]);
        lemma_interp_exact_at_sample(rest, i - 1);
    }
}

/// A target period at or beyond the last sample's period yields no value:
/// the scan never extrapolates past the curve.
pub proof fn lemma_interp_no_extrapolation(pts: Seq<(i64, i64)>, t: int)
    requires
        strictly_ascending(pts),
        pts.len() > 0,
        t >= pts.last().0,
    ensures
        interp_at(pts, t) is None,
    decreases pts.len(),
{
    if pts.len() >= 2 {
        assert(pts[1].0 <= pts.last().0) by {
            if 1 < pts.len() - 1 {
                lemma_ascending_chain(pts, 1, pts.len() - 1);
            }
        }
        let rest = pts.drop_first();
        assert(strictly_ascending(rest)) by {
            assert(forall|k: int| 0 <= k < rest.len() ==> rest[k] == pts[k + 1]);
        }
        assert(rest.last() == pts.last());
        lemma_interp_no_extrapolation(rest, t);
    }
}

/// Interpolating halfway between two consecutive samples yields the exact
/// mean of their values, whenever the midpoint and the mean are whole.
pub proof fn lemma_interp_midpoint_mean(pts: Seq<(i64, i64)>, i: int)
    requires
        strictly_ascending(pts),
        curve_in_range(pts),
        0 <= i < pts.len() - 1,
        (pts[i].0 + pts[i + 1].0) % 2 == 0,
        (pts[i].1 + pts[i + 1].1) % 2 == 0,
    ensures
        interp_at(pts, (pts[i].0 + pts[i + 1].0) / 2) == Some((pts[i].1 + pts[i + 1].1) / 2),
    decreases i,
{
    let a = pts[i];
    let b = pts[i + 1];
    let t = (a.0 + b.0) / 2;
    let m = (a.1 + b.1) / 2;
    assert(a.0 + b.0 == 2 * t && a.1 + b.1 == 2 * m) by {
        vstd::arithmetic::div_mod::lemma_fundamental_div_mod(a.0 + b.0, 2);
        vstd::arithmetic::div_mod::lemma_fundamental_div_mod(a.1 + b.1, 2);
    }
    if i == 0 {
        assert(b.0 > t && t > a.0);
        assert(lerp(a, b, t) == m) by {
            let k = t - a.0;
            assert(b.0 - a.0 == 2 * k);
            let d = b.1 - a.1;
            assert(d == 2 * (m - a.1));
            assert(k * d == (2 * k) * (m - a.1)) by (nonlinear_arith)
                requires
                    d == 2 * (m - a.1),
            ;
            lemma_tdiv_exact(2 * k, m - a.1);
            assert(tdiv((t - a.0) * d, b.0 - a.0) == m - a.1);
        }
        assert(in_val_range(m as int));
    } else {
        assert(pts[1].0 <= t) by {
            if i > 1 {
                lemma_ascending_chain(pts, 1, i);
            }
            assert(t > a.0);
        }
        let rest = pts.drop_first();
        assert(strictly_ascending(rest) && curve_in_range(rest)) by {
            assert(forall|k: int| 0 <= k < rest.len() ==> rest[k] == pts[k + 1]);
        }
        assert(rest[i - 1] == pts[i] && rest[i] == pts[i + 1]);
        lemma_interp_midpoint_mean(rest, i - 1);
    }
}

/// Computes `interp_at` over a node list with storable values.
pub fn interp_at_exec(pts: &Vec<(i64, i64)>, t: i64) -> (r: Option<i64>)
    requires
        curve_in_range(pts@),
        strictly_ascending(pts@),
        in_val_range(t as int),
    ensures
        r is Some <==> interp_at(pts@, t as int) is Some,
        r is Some ==> r->Some_0 == interp_at(pts@, t as int)->Some_0,
{
    let ghost whole = pts@;
    if pts.len() < 2 {
        return None;
    }
    let mut i: usize = 0;
    proof {
        assert(whole.subrange(0, whole.len() as int) =~= whole);
    }
    while i < pts.len() - 1
        invariant
            2 <= whole.len(),
            i <= whole.len() - 1,
            whole == pts@,
            curve_in_range(whole),
            strictly_ascending(whole),
            in_val_range(t as int),
            interp_at(whole, t as int) == interp_at(whole.subrange(i as int, whole.len() as int),
                t as int),
        decreases whole.len() - i,
    {
        let ghost rem = whole.subrange(i as int, whole.len() as int);
        let a = pts[i];
        let b = pts[i + 1];
        proof {
            assert(rem[0] == a && rem[1] == b);
        }
        if b.0 > t {
            proof {
                lemma_abs_mul_bound(t - a.0, b.1 - a.1, 2_000_000_000_000_000_000,
                    2_000_000_000_000_000_000);
                assert(a.0 < b.0);
            }
            let num: i128 = ((t - a.0) as i128) * ((b.1 - a.1) as i128);
            let den: i128 = (b.0 - a.0) as i128;
            proof {
                if num >= 0 {
                    vstd::arithmetic::div_mod::lemma_div_pos_is_pos(num as int, den as int);
                    lemma_div_le_self(num as int, den as int);
                } else {
                    vstd::arithmetic::div_mod::lemma_div_pos_is_pos(-(num as int), den as int);
                    lemma_div_le_self(-(num as int), den as int);
                }
            }
            let q: i128 = num / den;
            proof {
                assert(q == tdiv(num as int, den as int));
            }
            let v: i128 = (a.1 as i128) + q;
            if -(VAL_LIMIT as i128) <= v && v <= VAL_LIMIT as i128 {
                return Some(v as i64);
            } else {
                return None;
            }
        }
        i = i + 1;
        proof {
            assert(rem.drop_first() =~= whole.subrange(i as int, whole.len() as int));
        }
    }
    proof {
        assert(whole.subrange(i as int, whole.len() as int).len() < 2);
    }
    None
}

/// The magnitude of a product is bounded by the product of the bounds.
proof fn lemma_abs_mul_bound(a: int, b: int, m: int, n: int)
    requires
        abs_i(a) <= m,
        abs_i(b) <= n,
        0 <= m,
        0 <= n,
    ensures
        abs_i(a * b) <= m * n,
{
    assert(abs_i(a * b) <= m * n) by (nonlinear_arith)
        requires
            abs_i(a) <= m,
            abs_i(b) <= n,
            0 <= m,
            0 <= n,
    ;
}

/// A non-negative number does not grow under division by a positive one.
proof fn lemma_div_le_self(x: int, d: int)
    requires
        0 <= x,
        0 < d,
    ensures
        x / d <= x,
{
    vstd::arithmetic::div_mod::lemma_div_is_ordered_by_denominator(x, 1, d);
    lemma_fundamental_div_mod_converse(x, 1, x, 0);
}

/// What one signal-to-noise curve line contributes: `Some(None)` for a line
/// with too few columns (skipped), `Some(Some((period, ratio)))` for a
/// parsed node, `None` for a malformed numeric field (the whole curve is
/// then rejected).
pub open spec fn snr_line(line: Seq<u8>) -> Option<Option<(i64, i64)>> {
    let toks = tokens_of(line);
    if toks.len() < 6 {
        Some(None)
    } else {
        match (parse_decimal(toks[1]), parse_decimal(toks[2])) {
            (Some(p), Some(v)) => Some(Some((p as i64, v as i64))),
            _ => None,
        }
    }
}

/// The node list of a signal-to-noise curve, or `None` on any malformed
/// numeric field.
pub open spec fn snr_points(ls: Seq<Seq<u8>>) -> Option<Seq<(i64, i64)>>
    decreases ls.len(),
{
    if ls.len() == 0 {
        Some(Seq::empty())
    } else {
        match (snr_points(ls.drop_last()), snr_line(ls.last())) {
            (Some(pts), Some(opt)) => Some(
                match opt {
                    Some(pv) => pts.push(pv),
                    None => pts,
                },
            ),
            _ => None,
        }
    }
}

/// One bad line rejects the whole curve.
proof fn lemma_snr_poison(ls: Seq<Seq<u8>>, k: int)
    requires
        0 <= k < ls.len(),
        snr_line(ls[k]) is None,
    ensures
        snr_points(ls) is None,
    decreases ls.len(),
{
    if k < ls.len() - 1 {
        assert(ls.drop_last()[k] == ls[k]);
        lemma_snr_poison(ls.drop_last(), k);
    }
}

/// What one dispersion curve line contributes: period, phase velocity,
/// amplitude, with the same skip and rejection rules as `snr_line`.
pub open spec fn disp_line(line: Seq<u8>) -> Option<Option<(i64, i64, i64)>> {
    let toks = tokens_of(line);
    if toks.len() < 8 {
        Some(None)
    } else {
        match (parse_decimal(toks[2]), parse_decimal(toks[4]), parse_decimal(toks[5])) {
            (Some(p), Some(v), Some(a)) => Some(Some((p as i64, v as i64, a as i64))),
            _ => None,
        }
    }
}

/// The node list of a dispersion curve, or `None` on any malformed numeric
/// field.
pub open spec fn disp_points(ls: Seq<Seq<u8>>) -> Option<Seq<(i64, i64, i64)>>
    decreases ls.len(),
{
    if ls.len() == 0 {
        Some(Seq::empty())
    } else {
        match (disp_points(ls.drop_last()), disp_line(ls.last())) {
            (Some(pts), Some(opt)) => Some(
                match opt {
                    Some(pv) => pts.push(pv),
                    None => pts,
                },
            ),
            _ => None,
        }
    }
}

proof fn lemma_disp_poison(ls: Seq<Seq<u8>>, k: int)
    requires
        0 <= k < ls.len(),
        disp_line(ls[k]) is None,
    ensures
        disp_points(ls) is None,
    decreases ls.len(),
{
    if k < ls.len() - 1 {
        assert(ls.drop_last()[k] == ls[k]);
        lemma_disp_poison(ls.drop_last(), k);
    }
}

/// Parses a signal-to-noise curve from raw file bytes.
pub fn parse_snr_curve(text: &[u8]) -> (r: Option<Vec<(i64, i64)>>)
    ensures
        r is Some <==> snr_points(lines_of(text@)) is Some,
        r is Some ==> r->Some_0@ == snr_points(lines_of(text@))->Some_0,
{
    let lines = split_on_byte(text, 10);
    let ghost lv = lines_of(text@);
    let mut pts: Vec<(i64, i64)> = Vec::new();
    let mut i: usize = 0;
    proof {
        assert(lv.subrange(0, 0) =~= Seq::<Seq<u8>>::empty());
        assert(snr_points(lv.subrange(0, 0)) == Some(Seq::<(i64, i64)>::empty()));
        assert(pts@ =~= Seq::<(i64, i64)>::empty());
    }
    while i < lines.len()
        invariant
            i <= lines@.len(),
            bytes_view(lines@) == lv,
            lv == lines_of(text@),
            snr_points(lv.subrange(0, i as int)) == Some(pts@),
        decreases lines@.len() - i,
    {
        let ghost prefix = lv.subrange(0, i as int);
        let ghost prefix2 = lv.subrange(0, i as int + 1);
        proof {
            assert(prefix2.drop_last() =~= prefix);
            assert(prefix2.last() == lv[i as int]);
            assert(lv[i as int] == lines@[i as int]@);
        }
        let toks = tokens_of_line(lines[i].as_slice());
        if toks.len() >= 6 {
            proof {
                assert(bytes_view(toks@)[1] == toks@[1]@);
                assert(bytes_view(toks@)[2] == toks@[2]@);
            }
            let p = parse_decimal_bytes(toks[1].as_slice());
            let v = parse_decimal_bytes(toks[2].as_slice());
            match (p, v) {
                (Some(pv), Some(vv)) => {
                    pts.push((pv, vv));
                },
                _ => {
                    proof {
                        assert(snr_line(lv[i as int]) is None);
                        lemma_snr_poison(lv, i as int);
                    }
                    return None;
                },
            }
        }
        i = i + 1;
    }
    proof {
        assert(lv.subrange(0, lines@.len() as int) =~= lv);
    }
    Some(pts)
}

/// Parses a dispersion curve from raw file bytes.
pub fn parse_disp_curve(text: &[u8]) -> (r: Option<Vec<(i64, i64, i64)>>)
    ensures
        r is Some <==> disp_points(lines_of(text@)) is Some,
        r is Some ==> r->Some_0@ == disp_points(lines_of(text@))->Some_0,
{
    let lines = split_on_byte(text, 10);
    let ghost lv = lines_of(text@);
    let mut pts: Vec<(i64, i64, i64)> = Vec::new();
    let mut i: usize = 0;
    proof {
        assert(lv.subrange(0, 0) =~= Seq::<Seq<u8>>::empty());
        assert(disp_points(lv.subrange(0, 0)) == Some(Seq::<(i64, i64, i64)>::empty()));
        assert(pts@ =~= Seq::<(i64, i64, i64)>::empty());
    }
    while i < lines.len()
        invariant
            i <= lines@.len(),
            bytes_view(lines@) == lv,
            lv == lines_of(text@),
            disp_points(lv.subrange(0, i as int)) == Some(pts@),
        decreases lines@.len() - i,
    {
        let ghost prefix = lv.subrange(0, i as int);
        let ghost prefix2 = lv.subrange(0, i as int + 1);
        proof {
            assert(prefix2.drop_last() =~= prefix);
            assert(prefix2.last() == lv[i as int]);
            assert(lv[i as int] == lines@[i as int]@);
        }
        let toks = tokens_of_line(lines[i].as_slice());
        if toks.len() >= 8 {
            proof {
                assert(bytes_view(toks@)[2] == toks@[2]@);
                assert(bytes_view(toks@)[4] == toks@[4]@);
                assert(bytes_view(toks@)[5] == toks@[5]@);
            }
            let p = parse_decimal_bytes(toks[2].as_slice());
            let v = parse_decimal_bytes(toks[4].as_slice());
            let a = parse_decimal_bytes(toks[5].as_slice());
            match (p, v, a) {
                (Some(pv), Some(vv), Some(av)) => {
                    pts.push((pv, vv, av));
                },
                _ => {
                    proof {
                        assert(disp_line(lv[i as int]) is None);
                        lemma_disp_poison(lv, i as int);
                    }
                    return None;
                },
            }
        }
        i = i + 1;
    }
    proof {
        assert(lv.subrange(0, lines@.len() as int) =~= lv);
    }
    Some(pts)
}

/// Every parsed node holds storable values.
proof fn lemma_snr_points_in_range(ls: Seq<Seq<u8>>)
    requires
        snr_points(ls) is Some,
    ensures
        curve_in_range(snr_points(ls)->Some_0),
    decreases ls.len(),
{
    if ls.len() > 0 {
        lemma_snr_points_in_range(ls.drop_last());
        let pts = snr_points(ls.drop_last())->Some_0;
        match snr_line(ls.last()) {
            Some(Some(pv)) => {
                let toks = tokens_of(ls.last());
                crate::fixed::lemma_parse_decimal_range(toks[1]);
                crate::fixed::lemma_parse_decimal_range(toks[2]);
                assert(curve_in_range(pts.push(pv))) by {
                    assert(forall|i: int| 0 <= i < pts.len() ==> pts.push(pv)[i] == pts[i]);
                }
            },
            _ => {},
        }
    }
}

proof fn lemma_disp_points_in_range(ls: Seq<Seq<u8>>)
    requires
        disp_points(ls) is Some,
    ensures
        forall|i: int|
            0 <= i < disp_points(ls)->Some_0.len() ==> {
                let p = #[trigger] disp_points(ls)->Some_0[i];
                in_val_range(p.0 as int) && in_val_range(p.1 as int) && in_val_range(p.2 as int)
            },
    decreases ls.len(),
{
    if ls.len() > 0 {
        lemma_disp_points_in_range(ls.drop_last());
        let pts = disp_points(ls.drop_last())->Some_0;
        match disp_line(ls.last()) {
            Some(Some(pv)) => {
                let toks = tokens_of(ls.last());
                crate::fixed::lemma_parse_decimal_range(toks[2]);
                crate::fixed::lemma_parse_decimal_range(toks[4]);
                crate::fixed::lemma_parse_decimal_range(toks[5]);
                assert(forall|i: int| 0 <= i < pts.len() ==> pts.push(pv)[i] == pts[i]);
            },
            _ => {},
        }
    }
}

fn check_ascending(pts: &Vec<(i64, i64)>) -> (r: bool)
    ensures
        r == strictly_ascending(pts@),
{
    if pts.len() < 2 {
        return true;
    }
    let mut k: usize = 0;
    while k < pts.len() - 1
        invariant
            2 <= pts@.len(),
            k <= pts@.len() - 1,
            forall|i: int| 0 <= i < k ==> (#[trigger] pts@[i]).0 < pts@[i + 1].0,
        decreases pts@.len() - k,
    {
        if !(pts[k].0 < pts[k + 1].0) {
            return false;
        }
        k = k + 1;
    }
    true
}

/// The interpolated signal-to-noise value of the curve text at period `t`:
/// no value for a malformed or unordered curve, or a target period at or
/// beyond the curve's range.
pub open spec fn snr_value_at_spec(text: Seq<u8>, t: int) -> Option<int> {
    match snr_points(lines_of(text)) {
        Some(pts) => if strictly_ascending(pts) {
            interp_at(pts, t)
        } else {
            None
        },
        None => None,
    }
}

/// Reads and interpolates a signal-to-noise curve; see `snr_value_at_spec`.
pub fn snr_value_at(text: &[u8], period: i64) -> (r: Option<i64>)
    requires
        in_val_range(period as int),
    ensures
        r is Some <==> snr_value_at_spec(text@, period as int) is Some,
        r is Some ==> r->Some_0 == snr_value_at_spec(text@, period as int)->Some_0,
{
    let pts = match parse_snr_curve(text) {
        Some(p) => p,
        None => {
            return None;
        },
    };
    if !check_ascending(&pts) {
        return None;
    }
    proof {
        lemma_snr_points_in_range(lines_of(text@));
    }
    interp_at_exec(&pts, period)
}

/// The period-to-velocity nodes of a dispersion curve.
pub open spec fn phv_pairs(pts: Seq<(i64, i64, i64)>) -> Seq<(i64, i64)> {
    pts.map_values(|p: (i64, i64, i64)| (p.0, p.1))
}

/// The period-to-amplitude nodes of a dispersion curve.
pub open spec fn amp_pairs(pts: Seq<(i64, i64, i64)>) -> Seq<(i64, i64)> {
    pts.map_values(|p: (i64, i64, i64)| (p.0, p.2))
}

/// The interpolated phase velocity and amplitude of the dispersion curve
/// text at period `t`, under the same rejection rules as the other curve.
pub open spec fn disp_value_at_spec(text: Seq<u8>, t: int) -> Option<(int, int)> {
    match disp_points(lines_of(text)) {
        Some(pts) => if strictly_ascending(phv_pairs(pts)) {
            match (interp_at(phv_pairs(pts), t), interp_at(amp_pairs(pts), t)) {
                (Some(v), Some(a)) => Some((v, a)),
                _ => None,
            }
        } else {
            None
        },
        None => None,
    }
}

/// Reads and interpolates a dispersion curve; see `disp_value_at_spec`.
pub fn disp_value_at(text: &[u8], period: i64) -> (r: Option<(i64, i64)>)
    requires
        in_val_range(period as int),
    ensures
        r is Some <==> disp_value_at_spec(text@, period as int) is Some,
        r is Some ==> {
            let (v, a) = r->Some_0;
            disp_value_at_spec(text@, period as int)->Some_0 == (v as int, a as int)
        },
{
    let pts = match parse_disp_curve(text) {
        Some(p) => p,
        None => {
            return None;
        },
    };
    proof {
        lemma_disp_points_in_range(lines_of(text@));
    }
    let mut vp: Vec<(i64, i64)> = Vec::new();
    let mut ap: Vec<(i64, i64)> = Vec::new();
    let mut k: usize = 0;
    proof {
        assert(vp@ =~= phv_pairs(pts@.subrange(0, 0)));
        assert(ap@ =~= amp_pairs(pts@.subrange(0, 0)));
    }
    while k < pts.len()
        invariant
            k <= pts@.len(),
            vp@ == phv_pairs(pts@.subrange(0, k as int)),
            ap@ == amp_pairs(pts@.subrange(0, k as int)),
        decreases pts@.len() - k,
    {
        let p = pts[k];
        vp.push((p.0, p.1));
        ap.push((p.0, p.2));
        k = k + 1;
        proof {
            assert(vp@ =~= phv_pairs(pts@.subrange(0, k as int)));
            assert(ap@ =~= amp_pairs(pts@.subrange(0, k as int)));
        }
    }
    proof {
        assert(pts@.subrange(0, pts@.len() as int) =~= pts@);
        assert(curve_in_range(vp@));
        assert(curve_in_range(ap@));
    }
    if !check_ascending(&vp) {
        return None;
    }
    proof {
        assert(strictly_ascending(ap@)) by {
            assert(forall|i: int| 0 <= i < ap@.len() ==> (#[trigger] ap@[i]).0 == vp@[i].0);
        }
    }
    let v = match interp_at_exec(&vp, period) {
        Some(v) => v,
        None => {
            return None;
        },
    };
    let a = match interp_at_exec(&ap, period) {
        Some(a) => a,
        None => {
            return None;
        },
    };
    Some((v, a))
}

/// The record the extractor builds from a distance record and interpolated
/// velocity and amplitude: the travel time is the epicentral distance over
/// the velocity. A velocity, derived time, or amplitude outside the valid
/// ranges yields no record, so that every record the extractor hands on is
/// well formed.
pub open spec fn make_ph_spec(rec: DistRecord, phv: int, amp: int) -> Option<PhRecord> {
    if !(0 < phv <= PHV_LIMIT) {
        None
    } else {
        let time = rec.dist * 1_000_000 / phv;
        if !(0 < time <= TIME_LIMIT) {
            None
        } else if !(-VAL_LIMIT <= amp <= VAL_LIMIT) {
            None
        } else {
            Some(
                PhRecord {
                    lon: rec.lon,
                    lat: rec.lat,
                    time: time as i64,
                    phv: phv as i64,
                    amp: amp as i64,
                },
            )
        }
    }
}

/// The extractor's verdict on one station: the signal-to-noise value must
/// interpolate and reach the threshold (inclusively), the dispersion curve
/// must interpolate, and the built record must be storable.
pub open spec fn extract_spec(rec: DistRecord, snr_text: Seq<u8>, disp_text: Seq<u8>, period: int,
    snr_threshold: int) -> Option<PhRecord> {
    match snr_value_at_spec(snr_text, period) {
        None => None,
        Some(snr) => if snr < snr_threshold {
            None
        } else {
            match disp_value_at_spec(disp_text, period) {
                None => None,
                Some(va) => make_ph_spec(rec, va.0, va.1),
            }
        },
    }
}

/// Extracts one station's record from its two curve files, if it passes the
/// gates; see `extract_spec`.
pub fn extract_ph_record(rec: &DistRecord, snr_text: &[u8], disp_text: &[u8], period: i64,
    snr_threshold: i64) -> (r: Option<PhRecord>)
    requires
        rec.wf(),
        in_val_range(period as int),
    ensures
        r == extract_spec(*rec, snr_text@, disp_text@, period as int, snr_threshold as int),
        r is Some ==> r->Some_0.wf(),
{
    let snr = match snr_value_at(snr_text, period) {
        Some(s) => s,
        None => {
            return None;
        },
    };
    if snr < snr_threshold {
        return None;
    }
    let (phv, amp) = match disp_value_at(disp_text, period) {
        Some(va) => va,
        None => {
            return None;
        },
    };
    if !(0 < phv && phv <= PHV_LIMIT) {
        return None;
    }
    let time = rec.dist * 1_000_000 / phv;
    proof {
        vstd::arithmetic::div_mod::lemma_div_pos_is_pos(rec.dist as int * 1_000_000, phv as int);
    }
    if !(0 < time && time <= TIME_LIMIT) {
        return None;
    }
    if !(-VAL_LIMIT <= amp && amp <= VAL_LIMIT) {
        return None;
    }
    Some(PhRecord { lon: rec.lon, lat: rec.lat, time, phv, amp })
}

/// The distance gate: only records at or beyond the threshold have their
/// curve files read at all, the cheap filter coming first.
pub fn passes_dist_gate(rec: &DistRecord, dist_threshold: i64) -> (r: bool)
    ensures
        r == (rec.dist >= dist_threshold),
{
    rec.dist >= dist_threshold
}

/// What the whole extraction pass yields on pre-read curve texts: for each
/// record at or beyond the distance threshold, in input order, the event
/// identifier paired with the extracted record, where one is extracted.
pub open spec fn find_phv_amp_spec(inputs: Seq<(DistRecord, Vec<u8>, Vec<u8>)>, period: int,
    snr_threshold: int, dist_threshold: int) -> Seq<(Vec<u8>, PhRecord)>
    decreases inputs.len(),
{
    if inputs.len() == 0 {
        Seq::empty()
    } else {
        let hd = inputs[0];
        let rest = find_phv_amp_spec(inputs.drop_first(), period, snr_threshold, dist_threshold);
        if hd.0.dist < dist_threshold {
            rest
        } else {
            match extract_spec(hd.0, hd.1@, hd.2@, period, snr_threshold) {
                Some(ph) => seq![(hd.0.event, ph)] + rest,
                None => rest,
            }
        }
    }
}

/// Runs the extractor over pre-read curve texts, one `(distance record,
/// signal-to-noise text, dispersion text)` triple per station. Records below
/// the distance threshold are excluded; the rest pass through the
/// interpolation and signal-to-noise gates.
pub fn find_phv_amp(inputs: Vec<(DistRecord, Vec<u8>, Vec<u8>)>, period: i64, snr_threshold: i64,
    dist_threshold: i64) -> (out: Vec<(Vec<u8>, PhRecord)>)
    requires
        forall|i: int| 0 <= i < inputs@.len() ==> (#[trigger] inputs@[i]).0.wf(),
        in_val_range(period as int),
    ensures
        out@ == find_phv_amp_spec(inputs@, period as int, snr_threshold as int,
            dist_threshold as int),
        forall|i: int| 0 <= i < out@.len() ==> (#[trigger] out@[i]).1.wf(),
{
    let ghost whole = inputs@;
    let mut inputs = inputs;
    let mut out: Vec<(Vec<u8>, PhRecord)> = Vec::new();
    proof {
        assert(out@ + find_phv_amp_spec(inputs@, period as int, snr_threshold as int,
            dist_threshold as int) =~= find_phv_amp_spec(whole, period as int,
            snr_threshold as int, dist_threshold as int));
    }
    while inputs.len() > 0
        invariant
            forall|i: int| 0 <= i < inputs@.len() ==> (#[trigger] inputs@[i]).0.wf(),
            in_val_range(period as int),
            forall|i: int| 0 <= i < out@.len() ==> (#[trigger] out@[i]).1.wf(),
            out@ + find_phv_amp_spec(inputs@, period as int, snr_threshold as int,
                dist_threshold as int) == find_phv_amp_spec(whole, period as int,
                snr_threshold as int, dist_threshold as int),
        decreases inputs@.len(),
    {
        let ghost pre = inputs@;
        let ghost pre_out = out@;
        let (rec, snr_text, disp_text) = inputs.remove(0);
        proof {
            assert(inputs@ =~= pre.drop_first());
            assert(forall|i: int| 0 <= i < inputs@.len() ==> inputs@[i] == pre[i + 1]);
        }
        if !(rec.dist < dist_threshold) {
            let verdict = extract_ph_record(&rec, snr_text.as_slice(), disp_text.as_slice(),
                period, snr_threshold);
            match verdict {
                Some(ph) => {
                    let ghost ev = rec.event;
                    out.push((rec.event, ph));
                    proof {
                        assert(out@ =~= pre_out + seq![(ev, ph)]);
                        assert(out@ + find_phv_amp_spec(inputs@, period as int,
                            snr_threshold as int, dist_threshold as int) =~= pre_out + (seq![(ev,
                            ph)] + find_phv_amp_spec(pre.drop_first(), period as int,
                            snr_threshold as int, dist_threshold as int)));
                    }
                },
                None => {},
            }
        }
    }
    proof {
        assert(find_phv_amp_spec(inputs@, period as int, snr_threshold as int,
            dist_threshold as int) =~= Seq::<(Vec<u8>, PhRecord)>::empty());
        assert(out@ =~= out@ + Seq::<(Vec<u8>, PhRecord)>::empty());
    }
    out
}

} // verus!
