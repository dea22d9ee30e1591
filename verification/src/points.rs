//! Geographic points and great-circle distance.
//!
//! Coordinates are fixed-point micro-degrees. Distance follows the haversine
//! formula on a sphere of radius 6371 km, evaluated entirely in integer
//! arithmetic: the sine uses a rational approximation on `[0, 180]` degrees,
//! the arcsine a truncated power series with the usual reflection for large
//! arguments, and the square root an exact integer square root. The result is
//! micro-kilometres. The whole computation is a function of the coordinates
//! alone, so distance is provably symmetric and zero between equal points.

use vstd::prelude::*;
use vstd::arithmetic::div_mod::{
    lemma_div_pos_is_pos, lemma_div_is_ordered, lemma_fundamental_div_mod_converse,
};

verus! {

/// Largest valid latitude, in micro-degrees.
pub const LAT_LIMIT: i64 = 90_000_000;

/// Largest valid longitude magnitude, in micro-degrees.
pub const LON_LIMIT: i64 = 180_000_000;

pub open spec fn valid_lat(lat: int) -> bool {
    -90_000_000 <= lat <= 90_000_000
}

pub open spec fn valid_lon(lon: int) -> bool {
    -180_000_000 <= lon <= 180_000_000
}

pub open spec fn abs_i(x: int) -> int {
    if x < 0 {
        -x
    } else {
        x
    }
}

/// Sine of `x` micro-degrees, scaled by a million, for `x` in `[0, 180]`
/// degrees: the rational approximation `4x(180-x) / (40500 - x(180-x))`.
pub open spec fn sin_q(x: int) -> int {
    let p = x * (180_000_000 - x);
    (4_000_000 * p) / (40_500_000_000_000_000 - p)
}

/// Cosine of a latitude in micro-degrees, scaled by a million.
pub open spec fn cos_q(lat: int) -> int {
    sin_q(90_000_000 - abs_i(lat))
}

pub proof fn lemma_sin_q_range(x: int)
    requires
        0 <= x <= 180_000_000,
    ensures
        0 <= sin_q(x) <= 1_000_000,
{
    assert(0 <= x * (180_000_000 - x) <= 8_100_000_000_000_000) by (nonlinear_arith)
        requires
            0 <= x <= 180_000_000,
    ;
    let p = x * (180_000_000 - x);
    let den = 40_500_000_000_000_000 - p;
    let num = 4_000_000 * p;
    lemma_div_pos_is_pos(num, den);
    assert(num <= 1_000_000 * den);
    lemma_div_is_ordered(num, 1_000_000 * den, den);
    lemma_fundamental_div_mod_converse(1_000_000 * den, den, 1_000_000, 0);
}

fn sin_q_exec(x: i64) -> (r: i64)
    requires
        0 <= x <= 180_000_000,
    ensures
        r == sin_q(x as int),
        0 <= r <= 1_000_000,
{
    proof {
        lemma_sin_q_range(x as int);
        assert(0 <= (x as int) * (180_000_000 - x as int) <= 8_100_000_000_000_000)
            by (nonlinear_arith)
            requires
                0 <= x as int <= 180_000_000,
        ;
    }
    let xi: i128 = x as i128;
    let p: i128 = xi * (180_000_000 - xi);
    let num: i128 = 4_000_000 * p;
    let den: i128 = 40_500_000_000_000_000 - p;
    let r: i128 = num / den;
    r as i64
}

fn cos_q_exec(lat: i64) -> (r: i64)
    requires
        valid_lat(lat as int),
    ensures
        r == cos_q(lat as int),
        0 <= r <= 1_000_000,
{
    let a: i64 = if lat < 0 {
        -lat
    } else {
        lat
    };
    sin_q_exec(90_000_000 - a)
}

/// The integer square root: the largest `r` with `r * r <= n`.
pub open spec fn isqrt_spec(n: int) -> int
    decreases n,
{
    if n <= 0 {
        0
    } else {
        let r = isqrt_spec(n - 1);
        if (r + 1) * (r + 1) <= n {
            r + 1
        } else {
            r
        }
    }
}

pub proof fn lemma_isqrt_props(n: int)
    requires
        n >= 0,
    ensures
        isqrt_spec(n) >= 0,
        isqrt_spec(n) * isqrt_spec(n) <= n,
        n < (isqrt_spec(n) + 1) * (isqrt_spec(n) + 1),
    decreases n,
{
    if n > 0 {
        lemma_isqrt_props(n - 1);
        let r = isqrt_spec(n - 1);
        if (r + 1) * (r + 1) <= n {
            assert(n < (r + 2) * (r + 2)) by (nonlinear_arith)
                requires
                    n - 1 < (r + 1) * (r + 1),
                    r >= 0,
            ;
        }
    }
}

pub proof fn lemma_isqrt_unique(n: int, r: int)
    requires
        n >= 0,
        r >= 0,
        r * r <= n,
        n < (r + 1) * (r + 1),
    ensures
        isqrt_spec(n) == r,
{
    lemma_isqrt_props(n);
    let q = isqrt_spec(n);
    assert(q == r) by (nonlinear_arith)
        requires
            q >= 0,
            r >= 0,
            q * q <= n,
            n < (q + 1) * (q + 1),
            r * r <= n,
            n < (r + 1) * (r + 1),
    ;
}

fn isqrt_exec(n: i64) -> (r: i64)
    requires
        0 <= n <= 1_000_000_000_000,
    ensures
        r == isqrt_spec(n as int),
        0 <= r <= 1_000_000,
{
    let mut lo: i64 = 0;
    let mut hi: i64 = 1_000_000;
    while lo < hi
        invariant
            0 <= lo <= hi <= 1_000_000,
            lo * lo <= n,
            n < (hi + 1) * (hi + 1),
        decreases hi - lo,
    {
        let mid: i64 = (lo + hi + 1) / 2;
        proof {
            lemma_div_is_ordered(lo as int + hi as int + 1, 2 * (hi as int), 2);
            lemma_fundamental_div_mod_converse(2 * (hi as int), 2, hi as int, 0);
            lemma_div_is_ordered(2 * (lo as int) + 2, lo as int + hi as int + 1, 2);
            lemma_fundamental_div_mod_converse(2 * (lo as int) + 2, 2, lo as int + 1, 0);
            assert(lo < mid <= hi);
            assert((mid as int) * (mid as int) <= 1_000_000_000_000) by (nonlinear_arith)
                requires
                    0 <= mid as int <= 1_000_000,
            ;
        }
        if mid * mid <= n {
            lo = mid;
        } else {
            hi = mid - 1;
        }
    }
    proof {
        lemma_isqrt_unique(n as int, lo as int);
    }
    lo
}

/// Truncated arcsine series for arguments scaled by a million, valid on
/// `[0, 707107]` (up to the square root of one half).
pub open spec fn asin_core(s: int) -> int {
    let u = (s * s) / 1_000_000;
    let p3 = (s * u) / 1_000_000;
    let p5 = (p3 * u) / 1_000_000;
    let p7 = (p5 * u) / 1_000_000;
    let p9 = (p7 * u) / 1_000_000;
    s + p3 / 6 + 3 * p5 / 40 + 15 * p7 / 336 + 105 * p9 / 3456
}

pub proof fn lemma_asin_core_range(s: int)
    requires
        0 <= s <= 707_107,
    ensures
        s <= asin_core(s) <= 800_000,
{
    let u = (s * s) / 1_000_000;
    let p3 = (s * u) / 1_000_000;
    let p5 = (p3 * u) / 1_000_000;
    let p7 = (p5 * u) / 1_000_000;
    let p9 = (p7 * u) / 1_000_000;
    assert(0 <= s * s <= 500_040_329_449) by (nonlinear_arith)
        requires
            0 <= s <= 707_107,
    ;
    lemma_div_pos_is_pos(s * s, 1_000_000);
    lemma_div_is_ordered(s * s, 500_040_329_449, 1_000_000);
    assert(0 <= u <= 500_041);
    assert(0 <= s * u <= 353_582_491_787) by (nonlinear_arith)
        requires
            0 <= s <= 707_107,
            0 <= u <= 500_041,
    ;
    lemma_div_pos_is_pos(s * u, 1_000_000);
    lemma_div_is_ordered(s * u, 353_582_491_787, 1_000_000);
    assert(0 <= p3 <= 353_583);
    assert(0 <= p3 * u <= 176_826_996_903) by (nonlinear_arith)
        requires
            0 <= p3 <= 353_583,
            0 <= u <= 500_041,
    ;
    lemma_div_pos_is_pos(p3 * u, 1_000_000);
    lemma_div_is_ordered(p3 * u, 176_826_996_903, 1_000_000);
    assert(0 <= p5 <= 176_827);
    assert(0 <= p5 * u <= 88_420_750_107) by (nonlinear_arith)
        requires
            0 <= p5 <= 176_827,
            0 <= u <= 500_041,
    ;
    lemma_div_pos_is_pos(p5 * u, 1_000_000);
    lemma_div_is_ordered(p5 * u, 88_420_750_107, 1_000_000);
    assert(0 <= p7 <= 88_421);
    assert(0 <= p7 * u <= 44_214_125_261) by (nonlinear_arith)
        requires
            0 <= p7 <= 88_421,
            0 <= u <= 500_041,
    ;
    lemma_div_pos_is_pos(p7 * u, 1_000_000);
    lemma_div_is_ordered(p7 * u, 44_214_125_261, 1_000_000);
    assert(0 <= p9 <= 44_215);
    lemma_div_pos_is_pos(p3, 6);
    lemma_div_is_ordered(p3, 353_583, 6);
    lemma_div_pos_is_pos(3 * p5, 40);
    lemma_div_is_ordered(3 * p5, 530_481int, 40);
    lemma_div_pos_is_pos(15 * p7, 336);
    lemma_div_is_ordered(15 * p7, 1_326_315int, 336);
    lemma_div_pos_is_pos(105 * p9, 3456);
    lemma_div_is_ordered(105 * p9, 4_642_575int, 3456);
}

fn asin_core_exec(s: i64) -> (r: i64)
    requires
        0 <= s <= 707_107,
    ensures
        r == asin_core(s as int),
        s <= r <= 800_000,
{
    proof {
        lemma_asin_core_range(s as int);
        assert(0 <= (s as int) * (s as int) <= 500_040_329_449) by (nonlinear_arith)
            requires
                0 <= s as int <= 707_107,
        ;
    }
    let u: i64 = (s * s) / 1_000_000;
    proof {
        assert(0 <= (s as int) * (u as int) <= 353_582_491_787) by (nonlinear_arith)
            requires
                0 <= s as int <= 707_107,
                0 <= u as int <= 500_041,
        ;
    }
    let p3: i64 = (s * u) / 1_000_000;
    proof {
        assert(0 <= (p3 as int) * (u as int) <= 176_826_996_903) by (nonlinear_arith)
            requires
                0 <= p3 as int <= 353_583,
                0 <= u as int <= 500_041,
        ;
    }
    let p5: i64 = (p3 * u) / 1_000_000;
    proof {
        assert(0 <= (p5 as int) * (u as int) <= 88_420_750_107) by (nonlinear_arith)
            requires
                0 <= p5 as int <= 176_827,
                0 <= u as int <= 500_041,
        ;
    }
    let p7: i64 = (p5 * u) / 1_000_000;
    proof {
        assert(0 <= (p7 as int) * (u as int) <= 44_214_125_261) by (nonlinear_arith)
            requires
                0 <= p7 as int <= 88_421,
                0 <= u as int <= 500_041,
        ;
    }
    let p9: i64 = (p7 * u) / 1_000_000;
    s + p3 / 6 + 3 * p5 / 40 + 15 * p7 / 336 + 105 * p9 / 3456
}

/// Arcsine of `s / 1_000_000`, in micro-radians, for `s` in `[0, 1_000_000]`.
/// Above the square root of one half it reflects through a right angle.
pub open spec fn asin_q(s: int) -> int {
    if s <= 707_106 {
        asin_core(s)
    } else {
        1_570_796 - asin_core(isqrt_spec(1_000_000_000_000 - s * s))
    }
}

fn asin_q_exec(s: i64) -> (r: i64)
    requires
        0 <= s <= 1_000_000,
    ensures
        r == asin_q(s as int),
        0 <= r <= 1_570_796,
{
    if s <= 707_106 {
        asin_core_exec(s)
    } else {
        proof {
            assert(500_000_309_449 <= (s as int) * (s as int) <= 1_000_000_000_000)
                by (nonlinear_arith)
                requires
                    707_107 <= s as int <= 1_000_000,
            ;
        }
        let sq: i64 = s * s;
        let comp: i64 = isqrt_exec(1_000_000_000_000 - sq);
        proof {
            lemma_isqrt_props(1_000_000_000_000 - sq as int);
            assert(comp as int <= 707_106) by (nonlinear_arith)
                requires
                    (comp as int) * (comp as int) <= 1_000_000_000_000 - sq as int,
                    sq as int >= 500_000_309_449,
                    comp as int >= 0,
            ;
        }
        let core = asin_core_exec(comp);
        1_570_796 - core
    }
}

/// The haversine quantity `sin^2(dlat/2) + cos(lat1) cos(lat2) sin^2(dlon/2)`,
/// scaled by a million millions and clamped to one, so that rounding can
/// never push the arcsine's argument past the unit range.
pub open spec fn hav_a(lat1: int, lon1: int, lat2: int, lon2: int) -> int {
    let sl = sin_q(abs_i(lat2 - lat1) / 2);
    let so = sin_q(abs_i(lon2 - lon1) / 2);
    let c1 = cos_q(lat1);
    let c2 = cos_q(lat2);
    let a = sl * sl + (c1 * c2 * (so * so)) / 1_000_000_000_000;
    if a > 1_000_000_000_000 {
        1_000_000_000_000
    } else {
        a
    }
}

/// Great-circle distance in micro-kilometres between two coordinate pairs in
/// micro-degrees, on a sphere of radius 6371 km.
pub open spec fn spec_distance(lat1: int, lon1: int, lat2: int, lon2: int) -> int {
    6371 * (2 * asin_q(isqrt_spec(hav_a(lat1, lon1, lat2, lon2))))
}

/// An upper bound on any distance the library computes, in micro-kilometres.
pub const DIST_LIMIT: i64 = 20_015_086_232;

fn hav_a_exec(lat1: i64, lon1: i64, lat2: i64, lon2: i64) -> (a: i64)
    requires
        valid_lat(lat1 as int),
        valid_lat(lat2 as int),
        valid_lon(lon1 as int),
        valid_lon(lon2 as int),
    ensures
        a == hav_a(lat1 as int, lon1 as int, lat2 as int, lon2 as int),
        0 <= a <= 1_000_000_000_000,
{
    let dlat: i64 = lat2 - lat1;
    let adlat: i64 = if dlat < 0 {
        -dlat
    } else {
        dlat
    };
    let dlon: i64 = lon2 - lon1;
    let adlon: i64 = if dlon < 0 {
        -dlon
    } else {
        dlon
    };
    let sl = sin_q_exec(adlat / 2);
    let so = sin_q_exec(adlon / 2);
    let c1 = cos_q_exec(lat1);
    let c2 = cos_q_exec(lat2);
    proof {
        assert(0 <= (c1 as int) * (c2 as int) * ((so as int) * (so as int))
            <= 1_000_000_000_000_000_000_000_000) by (nonlinear_arith)
            requires
                0 <= c1 as int <= 1_000_000,
                0 <= c2 as int <= 1_000_000,
                0 <= so as int <= 1_000_000,
        ;
        lemma_div_pos_is_pos((c1 as int) * (c2 as int) * ((so as int) * (so as int)),
            1_000_000_000_000);
        lemma_div_is_ordered((c1 as int) * (c2 as int) * ((so as int) * (so as int)),
            1_000_000_000_000_000_000_000_000, 1_000_000_000_000);
        lemma_fundamental_div_mod_converse(1_000_000_000_000_000_000_000_000,
            1_000_000_000_000, 1_000_000_000_000, 0);
        assert(0 <= (sl as int) * (sl as int) <= 1_000_000_000_000) by (nonlinear_arith)
            requires
                0 <= sl as int <= 1_000_000,
        ;
        assert(0 <= (so as int) * (so as int) <= 1_000_000_000_000) by (nonlinear_arith)
            requires
                0 <= so as int <= 1_000_000,
        ;
        assert(0 <= (c1 as int) * (c2 as int) <= 1_000_000_000_000) by (nonlinear_arith)
            requires
                0 <= c1 as int <= 1_000_000,
                0 <= c2 as int <= 1_000_000,
        ;
        assert(((c1 as int) * (c2 as int)) * ((so as int) * (so as int))
            <= 1_000_000_000_000_000_000_000_000) by (nonlinear_arith)
            requires
                0 <= (c1 as int) * (c2 as int) <= 1_000_000_000_000,
                0 <= (so as int) * (so as int) <= 1_000_000_000_000,
        ;
    }
    let sl2: i64 = sl * sl;
    let so2: i128 = (so as i128) * (so as i128);
    let prod: i128 = (c1 as i128) * (c2 as i128) * so2;
    let term2: i64 = (prod / 1_000_000_000_000) as i64;
    let a: i64 = sl2 + term2;
    if a > 1_000_000_000_000 {
        1_000_000_000_000
    } else {
        a
    }
}

/// Computes `spec_distance` on coordinate pairs within the valid ranges.
pub fn dist_coords(lat1: i64, lon1: i64, lat2: i64, lon2: i64) -> (d: i64)
    requires
        valid_lat(lat1 as int),
        valid_lat(lat2 as int),
        valid_lon(lon1 as int),
        valid_lon(lon2 as int),
    ensures
        d == spec_distance(lat1 as int, lon1 as int, lat2 as int, lon2 as int),
        0 <= d <= DIST_LIMIT,
{
    let a = hav_a_exec(lat1, lon1, lat2, lon2);
    let s = isqrt_exec(a);
    let c = asin_q_exec(s);
    6371 * (2 * c)
}

/// Distance between two equal coordinate pairs is zero.
pub proof fn lemma_distance_self(lat: int, lon: int)
    ensures
        spec_distance(lat, lon, lat, lon) == 0,
{
    assert(abs_i(lat - lat) / 2 == 0);
    assert(sin_q(0) == 0);
    assert(hav_a(lat, lon, lat, lon) == 0) by {
        let c1 = cos_q(lat);
        assert(c1 * c1 * (0 * 0) == 0) by (nonlinear_arith);
        assert(0int / 1_000_000_000_000 == 0);
    }
    assert(isqrt_spec(0) == 0);
    assert(asin_q(0) == 0) by {
        assert((0int * 0) / 1_000_000 == 0);
        assert(0int / 6 == 0);
        assert((3 * 0int) / 40 == 0);
        assert((15 * 0int) / 336 == 0);
        assert((105 * 0int) / 3456 == 0);
    }
}

/// Distance does not depend on the order of its two points.
pub proof fn lemma_distance_symmetric(lat1: int, lon1: int, lat2: int, lon2: int)
    ensures
        spec_distance(lat1, lon1, lat2, lon2) == spec_distance(lat2, lon2, lat1, lon1),
{
    assert(abs_i(lat2 - lat1) == abs_i(lat1 - lat2));
    assert(abs_i(lon2 - lon1) == abs_i(lon1 - lon2));
    let sl = sin_q(abs_i(lat2 - lat1) / 2);
    let so = sin_q(abs_i(lon2 - lon1) / 2);
    let c1 = cos_q(lat1);
    let c2 = cos_q(lat2);
    assert(c1 * c2 * (so * so) == c2 * c1 * (so * so)) by (nonlinear_arith);
}

/// A location with an optional numeric identity and an optional name.
/// Coordinates are micro-degrees.
#[derive(Debug, Clone)]
pub struct GeoPoint {
    pub id: Option<usize>,
    pub code: Option<Vec<u8>>,
    pub lat: i64,
    pub lon: i64,
}

impl GeoPoint {
    /// Both coordinates lie within the valid geographic ranges.
    pub open spec fn wf(&self) -> bool {
        valid_lat(self.lat as int) && valid_lon(self.lon as int)
    }

    pub fn new(lat: i64, lon: i64, id: Option<usize>, code: Option<Vec<u8>>) -> (p: GeoPoint)
        ensures
            p.lat == lat,
            p.lon == lon,
            p.id == id,
            p.code == code,
    {
        GeoPoint { id, code, lat, lon }
    }

    pub fn id(&self) -> (r: usize)
        ensures
            r == (match self.id {
                Some(i) => i as int,
                None => 0int,
            }),
    {
        match self.id {
            Some(i) => i,
            None => 0,
        }
    }

    pub fn code(&self) -> (r: Vec<u8>)
        ensures
            r@ == (match self.code {
                Some(c) => c@,
                None => Seq::<u8>::empty(),
            }),
    {
        match &self.code {
            Some(c) => clone_bytes(c),
            None => Vec::new(),
        }
    }

    /// Great-circle distance to `other`, in micro-kilometres.
    pub fn distance_to(&self, other: &GeoPoint) -> (d: i64)
        requires
            self.wf(),
            other.wf(),
        ensures
            d == spec_distance(self.lat as int, self.lon as int, other.lat as int,
                other.lon as int),
            0 <= d <= DIST_LIMIT,
    {
        dist_coords(self.lat, self.lon, other.lat, other.lon)
    }

    /// Whether the point lies in the closed box given by the four bounds.
    pub fn within(&self, min_lat: i64, max_lat: i64, min_lon: i64, max_lon: i64) -> (r: bool)
        ensures
            r == (min_lat <= self.lat && self.lat <= max_lat && min_lon <= self.lon && self.lon
                <= max_lon),
    {
        min_lat <= self.lat && self.lat <= max_lat && min_lon <= self.lon && self.lon <= max_lon
    }
}

/// A byte-for-byte copy of `v`.
pub fn clone_bytes(v: &Vec<u8>) -> (r: Vec<u8>)
    ensures
        r@ == v@,
{
    let mut out: Vec<u8> = Vec::new();
    let mut k: usize = 0;
    while k < v.len()
        invariant
            k <= v@.len(),
            out@ == v@.subrange(0, k as int),
        decreases v@.len() - k,
    {
        out.push(v[k]);
        k = k + 1;
        assert(out@ =~= v@.subrange(0, k as int));
    }
    assert(out@ =~= v@);
    out
}

} // verus!
