//! Fixed-point decimal numbers.
//!
//! Every physical quantity in this library (degrees, kilometres, seconds,
//! kilometres per second, amplitudes) is carried as an `i64` counting
//! micro-units: one unit is `SCALE` (a millionth). Measurement files store
//! such quantities as plain decimal text; this module parses that text and
//! renders values back, with six digits after the decimal point, so that a
//! written value reads back exactly.

use vstd::prelude::*;

verus! {

/// Scale of all fixed-point quantities: micro-units per unit.
pub const SCALE: i64 = 1_000_000;

/// Largest magnitude, in micro-units, that a parsed or stored value may have.
pub const VAL_LIMIT: i64 = 1_000_000_000_000_000_000;

/// Largest integer part (in whole units) a parsed value may have.
pub const INT_LIMIT: i64 = 1_000_000_000_000;

pub open spec fn in_val_range(v: int) -> bool {
    -(VAL_LIMIT as int) <= v <= VAL_LIMIT as int
}

pub open spec fn is_digit(c: u8) -> bool {
    48 <= c && c <= 57
}

/// All bytes of `s` in `[i, j)` are decimal digits.
pub open spec fn digits_in(s: Seq<u8>, i: int, j: int) -> bool {
    forall|k: int| i <= k < j ==> is_digit(s[k])
}

/// The value of the digit run `s[i..j]`, read most significant first.
pub open spec fn seg_val(s: Seq<u8>, i: int, j: int) -> int
    decreases j - i,
{
    if j <= i {
        0
    } else {
        seg_val(s, i, j - 1) * 10 + (s[j - 1] - 48)
    }
}

pub open spec fn pow10(n: nat) -> int
    decreases n,
{
    if n == 0 {
        1
    } else {
        10 * pow10((n - 1) as nat)
    }
}

/// The fractional digit run `s[i..j]` scaled to micro-units: digits beyond
/// the sixth are dropped, shorter runs are padded with trailing zeros.
pub open spec fn frac_val(s: Seq<u8>, i: int, j: int) -> int {
    if j - i >= 6 {
        seg_val(s, i, i + 6)
    } else {
        seg_val(s, i, j) * pow10((6 - (j - i)) as nat)
    }
}

/// First index at or after `i` holding byte `b`, or `s.len()` if none does.
pub open spec fn find_byte(s: Seq<u8>, b: u8, i: int) -> int
    decreases s.len() - i,
{
    if i < 0 || i >= s.len() {
        s.len() as int
    } else if s[i] == b {
        i
    } else {
        find_byte(s, b, i + 1)
    }
}

pub proof fn lemma_find_byte(s: Seq<u8>, b: u8, i: int)
    requires
        0 <= i <= s.len(),
    ensures
        i <= find_byte(s, b, i) <= s.len(),
        find_byte(s, b, i) < s.len() ==> s[find_byte(s, b, i)] == b,
        forall|k: int| i <= k < find_byte(s, b, i) ==> s[k] != b,
    decreases s.len() - i,
{
    if i < s.len() && s[i] != b {
        lemma_find_byte(s, b, i + 1);
    }
}

pub proof fn lemma_find_byte_is(s: Seq<u8>, b: u8, i: int, k: int)
    requires
        0 <= i <= k <= s.len(),
        forall|j: int| i <= j < k ==> s[j] != b,
        k < s.len() ==> s[k] == b,
    ensures
        find_byte(s, b, i) == k,
    decreases k - i,
{
    if i < k {
        lemma_find_byte_is(s, b, i + 1, k);
    }
}

/// First index at or after `start` in `v` holding `b`, or `v.len()`.
pub fn find_byte_in(v: &[u8], b: u8, start: usize) -> (r: usize)
    requires
        start <= v@.len(),
    ensures
        r == find_byte(v@, b, start as int),
{
    let mut k: usize = start;
    while k < v.len()
        invariant
            start <= k <= v@.len(),
            forall|j: int| start <= j < k ==> v@[j] != b,
        decreases v@.len() - k,
    {
        if v[k] == b {
            proof {
                lemma_find_byte_is(v@, b, start as int, k as int);
            }
            return k;
        }
        k = k + 1;
    }
    proof {
        lemma_find_byte_is(v@, b, start as int, v@.len() as int);
    }
    k
}

pub proof fn lemma_seg_val_nonneg(s: Seq<u8>, i: int, j: int)
    requires
        digits_in(s, i, j),
    ensures
        seg_val(s, i, j) >= 0,
    decreases j - i,
{
    if j > i {
        lemma_seg_val_nonneg(s, i, j - 1);
    }
}

/// A digit run's value only grows as the run is extended to the right.
pub proof fn lemma_seg_val_mono(s: Seq<u8>, i: int, k: int, j: int)
    requires
        i <= k <= j,
        digits_in(s, i, j),
    ensures
        seg_val(s, i, j) >= seg_val(s, i, k),
    decreases j - k,
{
    if j > k {
        lemma_seg_val_mono(s, i, k, j - 1);
        lemma_seg_val_nonneg(s, i, j - 1);
    }
}

/// The value of a digit run `v[i..j]`, or `None` if some byte there is not a
/// digit or the value exceeds `INT_LIMIT`.
pub fn seg_val_in(v: &[u8], i: usize, j: usize) -> (r: Option<i64>)
    requires
        i <= j <= v@.len(),
    ensures
        match r {
            Some(x) => digits_in(v@, i as int, j as int) && x == seg_val(v@, i as int, j as int)
                && 0 <= x <= INT_LIMIT,
            None => !digits_in(v@, i as int, j as int) || seg_val(v@, i as int, j as int)
                > INT_LIMIT,
        },
{
    let mut acc: i64 = 0;
    let mut k: usize = i;
    while k < j
        invariant
            i <= k <= j <= v@.len(),
            digits_in(v@, i as int, k as int),
            acc == seg_val(v@, i as int, k as int),
            0 <= acc <= INT_LIMIT,
        decreases j - k,
    {
        let c = v[k];
        if !(48 <= c && c <= 57) {
            return None;
        }
        let d: i64 = (c - 48) as i64;
        let next: i64 = acc * 10 + d;
        k = k + 1;
        if next > INT_LIMIT {
            proof {
                if digits_in(v@, i as int, j as int) {
                    lemma_seg_val_mono(v@, i as int, k as int, j as int);
                }
            }
            return None;
        }
        acc = next;
    }
    Some(acc)
}

/// The sign carried by a decimal token: `-1` for a leading `-`, else `1`.
pub open spec fn dec_sign(s: Seq<u8>) -> int {
    if s.len() > 0 && s[0] == 45 {
        -1
    } else {
        1
    }
}

/// Index where the digits of a decimal token begin (after a leading sign).
pub open spec fn dec_body(s: Seq<u8>) -> int {
    if s.len() > 0 && (s[0] == 45 || s[0] == 43) {
        1
    } else {
        0
    }
}

/// The magnitude, in micro-units, spelled by `s[b..]`: an integer digit run,
/// optionally followed by `.` and a fractional digit run. `None` if the text
/// does not have that shape.
pub open spec fn dec_magnitude(s: Seq<u8>, b: int) -> Option<int> {
    let n = s.len() as int;
    let dot = find_byte(s, 46, b);
    if dot == n {
        if dot - b >= 1 && digits_in(s, b, n) {
            Some(seg_val(s, b, n) * 1_000_000)
        } else {
            None
        }
    } else {
        if dot - b >= 1 && n - (dot + 1) >= 1 && digits_in(s, b, dot) && digits_in(
            s,
            dot + 1,
            n,
        ) {
            Some(seg_val(s, b, dot) * 1_000_000 + frac_val(s, dot + 1, n))
        } else {
            None
        }
    }
}

/// The micro-unit value spelled by the whole token `s`, `None` if malformed
/// or larger in magnitude than `VAL_LIMIT`.
pub open spec fn parse_decimal(s: Seq<u8>) -> Option<int> {
    match dec_magnitude(s, dec_body(s)) {
        Option::None => Option::None,
        Option::Some(m) => if m > VAL_LIMIT {
            Option::None
        } else {
            Option::Some(dec_sign(s) * m)
        },
    }
}

pub proof fn lemma_frac_val_range(s: Seq<u8>, i: int, j: int)
    requires
        i <= j <= s.len(),
        digits_in(s, i, j),
    ensures
        0 <= frac_val(s, i, j) < 1_000_000,
    decreases j - i,
{
    lemma_pow10_vals();
    lemma_seg_val_small(s, i, if j - i >= 6 { i + 6 } else { j });
    if j - i < 6 {
        lemma_seg_val_small(s, i, j);
        lemma_pow10_pos((6 - (j - i)) as nat);
        lemma_seg_val_nonneg(s, i, j);
        lemma_seg_pow_bound(s, i, j);
        assert(seg_val(s, i, j) * pow10((6 - (j - i)) as nat) >= 0) by (nonlinear_arith)
            requires
                seg_val(s, i, j) >= 0,
                pow10((6 - (j - i)) as nat) >= 1,
        ;
    }
}

proof fn lemma_pow10_pos(n: nat)
    ensures
        pow10(n) >= 1,
    decreases n,
{
    if n > 0 {
        lemma_pow10_pos((n - 1) as nat);
    }
}

/// A run of `j - i` digits is smaller than `10^(j - i)`.
proof fn lemma_seg_val_small(s: Seq<u8>, i: int, j: int)
    requires
        i <= j <= s.len(),
        digits_in(s, i, j),
    ensures
        0 <= seg_val(s, i, j) < pow10((j - i) as nat),
    decreases j - i,
{
    if j > i {
        lemma_seg_val_small(s, i, j - 1);
    }
}

proof fn lemma_seg_pow_bound(s: Seq<u8>, i: int, j: int)
    requires
        i <= j <= s.len(),
        j - i < 6,
        digits_in(s, i, j),
    ensures
        seg_val(s, i, j) * pow10((6 - (j - i)) as nat) < 1_000_000,
{
    lemma_seg_val_small(s, i, j);
    lemma_pow10_split((j - i) as nat, (6 - (j - i)) as nat);
    lemma_pow10_pos((6 - (j - i)) as nat);
    lemma_pow10_vals();
    let a = seg_val(s, i, j);
    let p = pow10((j - i) as nat);
    let q = pow10((6 - (j - i)) as nat);
    assert(a <= p - 1);
    assert(p * q == 1_000_000);
    assert(a * q <= (p - 1) * q) by (nonlinear_arith)
        requires
            a <= p - 1,
            q >= 1,
    ;
    assert((p - 1) * q == p * q - q) by (nonlinear_arith);
}

proof fn lemma_pow10_split(a: nat, b: nat)
    ensures
        pow10(a) * pow10(b) == pow10(a + b),
    decreases a,
{
    if a > 0 {
        lemma_pow10_split((a - 1) as nat, b);
        assert(pow10(a) * pow10(b) == 10 * (pow10((a - 1) as nat) * pow10(b)))
            by (nonlinear_arith)
            requires
                pow10(a) == 10 * pow10((a - 1) as nat),
        ;
    }
}

/// Parses one decimal token into micro-units: optional `+` or `-` sign, an
/// integer digit run, and optionally `.` with a fractional run, of which the
/// first six digits are kept. `None` on any other shape or when the value's
/// magnitude exceeds `VAL_LIMIT`.
pub fn parse_decimal_bytes(s: &[u8]) -> (r: Option<i64>)
    ensures
        r is Some <==> parse_decimal(s@) is Some,
        r is Some ==> r->Some_0 == parse_decimal(s@)->Some_0,
{
    let n = s.len();
    let ghost sq = s@;
    let (neg, b): (bool, usize) = if n > 0 && (s[0] == 45 || s[0] == 43) {
        (s[0] == 45, 1)
    } else {
        (false, 0)
    };
    let dot = find_byte_in(s, 46, b);
    proof {
        lemma_find_byte(sq, 46, b as int);
    }
    if dot == n {
        if dot <= b {
            return None;
        }
        let ip = match seg_val_in(s, b, n) {
            Some(x) => x,
            None => {
                proof {
                    seg_too_big(sq, b as int, dot as int, n as int);
                }
                return None;
            },
        };
        let m = ip * 1_000_000;
        if m > VAL_LIMIT {
            return None;
        }
        if neg {
            Some(-m)
        } else {
            Some(m)
        }
    } else {
        if dot <= b || n - (dot + 1) < 1 {
            return None;
        }
        let ip = match seg_val_in(s, b, dot) {
            Some(x) => x,
            None => {
                proof {
                    seg_too_big(sq, b as int, dot as int, n as int);
                }
                return None;
            },
        };
        let fr = match seg_val_in(s, dot + 1, if n - (dot + 1) >= 6 {
            dot + 7
        } else {
            n
        }) {
            Some(x) => x,
            None => {
                proof {
                    frac_bad(sq, (dot + 1) as int, n as int);
                }
                return None;
            },
        };
        if !frac_digits_ok(s, dot + 1, n) {
            return None;
        }
        proof {
            lemma_pow10_vals();
            let fj: int = if n - (dot + 1) >= 6 {
                dot + 7
            } else {
                n as int
            };
            lemma_seg_val_small(sq, (dot + 1) as int, fj);
            lemma_pow10_mono((fj - (dot + 1)) as nat, 6);
        }
        let scale: i64 = if n - (dot + 1) >= 6 {
            1
        } else {
            pow10_exec((6 - (n - (dot + 1))) as u32)
        };
        proof {
            assert(0 <= (fr as int) * (scale as int) <= 999_999_000_000) by (nonlinear_arith)
                requires
                    0 <= fr as int <= 999_999,
                    1 <= scale as int <= 1_000_000,
            ;
        }
        let frs = fr * scale;
        proof {
            lemma_frac_val_range(sq, (dot + 1) as int, n as int);
        }
        let m = ip * 1_000_000 + frs;
        if m > VAL_LIMIT {
            return None;
        }
        if neg {
            Some(-m)
        } else {
            Some(m)
        }
    }
}

/// All fractional digits, beyond the kept six as well, must be digits.
fn frac_digits_ok(s: &[u8], i: usize, j: usize) -> (r: bool)
    requires
        i <= j <= s@.len(),
    ensures
        r == digits_in(s@, i as int, j as int),
{
    let mut k: usize = i;
    while k < j
        invariant
            i <= k <= j <= s@.len(),
            digits_in(s@, i as int, k as int),
        decreases j - k,
    {
        let c = s[k];
        if !(48 <= c && c <= 57) {
            return false;
        }
        k = k + 1;
    }
    true
}

proof fn lemma_pow10_vals()
    ensures
        pow10(0) == 1,
        pow10(1) == 10,
        pow10(2) == 100,
        pow10(3) == 1000,
        pow10(4) == 10000,
        pow10(5) == 100000,
        pow10(6) == 1000000,
{
    reveal_with_fuel(pow10, 7);
}

fn pow10_exec(e: u32) -> (r: i64)
    requires
        e <= 6,
    ensures
        r == pow10(e as nat),
        1 <= r <= 1_000_000,
{
    proof {
        lemma_pow10_vals();
    }
    if e == 0 {
        1
    } else if e == 1 {
        10
    } else if e == 2 {
        100
    } else if e == 3 {
        1000
    } else if e == 4 {
        10000
    } else if e == 5 {
        100000
    } else {
        1000000
    }
}

/// When a digit run's prefix already exceeds `INT_LIMIT`, the token as a
/// whole parses to `None`.
proof fn seg_too_big(s: Seq<u8>, b: int, j: int, n: int)
    requires
        0 <= b <= j <= n == s.len(),
        j == find_byte(s, 46, b),
        !digits_in(s, b, j) || seg_val(s, b, j) > INT_LIMIT,
    ensures
        dec_magnitude(s, b) is None || dec_magnitude(s, b)->Some_0 > VAL_LIMIT,
{
    let dot = find_byte(s, 46, b);
    lemma_find_byte(s, 46, b);
    if dot == n {
        if digits_in(s, b, n) && seg_val(s, b, n) > INT_LIMIT {
            assert(seg_val(s, b, n) * 1_000_000 > VAL_LIMIT) by (nonlinear_arith)
                requires
                    seg_val(s, b, n) > INT_LIMIT,
                    INT_LIMIT == 1_000_000_000_000,
                    VAL_LIMIT == 1_000_000_000_000_000_000,
            ;
        }
    } else {
        if digits_in(s, b, dot) && digits_in(s, dot + 1, n) && seg_val(s, b, dot) > INT_LIMIT {
            lemma_frac_val_range(s, dot + 1, n);
            assert(seg_val(s, b, dot) * 1_000_000 > VAL_LIMIT) by (nonlinear_arith)
                requires
                    seg_val(s, b, dot) > INT_LIMIT,
                    INT_LIMIT == 1_000_000_000_000,
                    VAL_LIMIT == 1_000_000_000_000_000_000,
            ;
        }
    }
}

/// A bad byte among the first six fractional digits spoils the whole run.
proof fn frac_bad(s: Seq<u8>, i: int, n: int)
    requires
        0 <= i <= n == s.len(),
        !digits_in(s, i, if n - i >= 6 { i + 6 } else { n }) || seg_val(
            s,
            i,
            if n - i >= 6 {
                i + 6
            } else {
                n
            },
        ) > INT_LIMIT,
    ensures
        !digits_in(s, i, n),
{
    let j = if n - i >= 6 {
        i + 6
    } else {
        n
    };
    if digits_in(s, i, n) {
        lemma_seg_val_small(s, i, j);
        lemma_pow10_vals();
        assert(pow10((j - i) as nat) <= 1_000_000) by {
            lemma_pow10_mono((j - i) as nat, 6);
        }
    }
}

proof fn lemma_pow10_mono(a: nat, b: nat)
    requires
        a <= b,
    ensures
        pow10(a) <= pow10(b),
    decreases b,
{
    if a < b && b > 0 {
        lemma_pow10_mono(a, (b - 1) as nat);
        lemma_pow10_pos((b - 1) as nat);
    }
}

/// A parsed value always lies within the storable range.
pub proof fn lemma_parse_decimal_range(s: Seq<u8>)
    ensures
        parse_decimal(s) is Some ==> in_val_range(parse_decimal(s)->Some_0),
{
    let b = dec_body(s);
    if parse_decimal(s) is Some {
        let n = s.len() as int;
        let dot = find_byte(s, 46, b);
        lemma_find_byte(s, 46, b);
        if dot == n {
            lemma_seg_val_nonneg(s, b, n);
        } else {
            lemma_seg_val_nonneg(s, b, dot);
            lemma_frac_val_range(s, dot + 1, n);
            assert(seg_val(s, b, dot) * 1_000_000 >= 0) by (nonlinear_arith)
                requires
                    seg_val(s, b, dot) >= 0,
            ;
        }
    }
}

/// The decimal digits of `n`, most significant first, no leading zeros
/// (a single `0` for zero).
pub open spec fn dec_digits(n: nat) -> Seq<u8>
    decreases n,
{
    if n < 10 {
        seq![(48 + n) as u8]
    } else {
        dec_digits(n / 10).push((48 + (n % 10)) as u8)
    }
}

/// Exactly `w` decimal digits of `n`, zero-padded on the left.
pub open spec fn pad_digits(n: nat, w: nat) -> Seq<u8>
    decreases w,
{
    if w == 0 {
        Seq::empty()
    } else {
        pad_digits(n / 10, (w - 1) as nat).push((48 + (n % 10)) as u8)
    }
}

/// The text this library writes for the micro-unit value `v`: an optional
/// minus sign, the whole units, a dot, and exactly six fractional digits.
pub open spec fn spec_format_fixed(v: int) -> Seq<u8> {
    let m = if v < 0 {
        -v
    } else {
        v
    };
    let sign: Seq<u8> = if v < 0 {
        seq![45u8]
    } else {
        Seq::empty()
    };
    sign + dec_digits((m / 1_000_000) as nat) + seq![46u8] + pad_digits((m % 1_000_000) as nat, 6)
}

proof fn lemma_dec_digits_wf(n: nat)
    ensures
        dec_digits(n).len() >= 1,
        forall|k: int| 0 <= k < dec_digits(n).len() ==> is_digit(#[trigger] dec_digits(n)[k]),
    decreases n,
{
    if n >= 10 {
        lemma_dec_digits_wf(n / 10);
    }
}

proof fn lemma_pad_digits_wf(n: nat, w: nat)
    ensures
        pad_digits(n, w).len() == w,
        forall|k: int| 0 <= k < w ==> is_digit(#[trigger] pad_digits(n, w)[k]),
    decreases w,
{
    if w > 0 {
        lemma_pad_digits_wf(n / 10, (w - 1) as nat);
    }
}

/// `seg_val` reads only the bytes in `[i, j)`.
proof fn lemma_seg_val_congruent(s1: Seq<u8>, s2: Seq<u8>, i: int, j: int)
    requires
        0 <= i,
        j <= s1.len(),
        j <= s2.len(),
        forall|k: int| i <= k < j ==> s1[k] == s2[k],
    ensures
        seg_val(s1, i, j) == seg_val(s2, i, j),
    decreases j - i,
{
    if j > i {
        lemma_seg_val_congruent(s1, s2, i, j - 1);
    }
}

/// Reading back the digits of `n` yields `n`, wherever the run sits.
proof fn lemma_seg_val_of_dec_digits(s: Seq<u8>, i: int, n: nat)
    requires
        0 <= i,
        i + dec_digits(n).len() <= s.len(),
        forall|k: int| 0 <= k < dec_digits(n).len() ==> s[i + k] == dec_digits(n)[k],
    ensures
        seg_val(s, i, i + dec_digits(n).len()) == n,
    decreases n,
{
    let ds = dec_digits(n);
    lemma_dec_digits_wf(n);
    if n < 10 {
        let k0 = 0int;
        assert(s[i + k0] == ds[k0]);
        assert(seg_val(s, i, i) == 0);
        assert(seg_val(s, i, i + 1) == s[i] - 48);
    } else {
        let prev = dec_digits(n / 10);
        lemma_dec_digits_wf(n / 10);
        assert(ds == prev.push((48 + (n % 10)) as u8));
        assert forall|k: int| 0 <= k < prev.len() implies s[i + k] == prev[k] by {
            assert(s[i + k] == ds[k]);
        }
        lemma_seg_val_of_dec_digits(s, i, n / 10);
        let kl = prev.len() as int;
        assert(s[i + kl] == ds[kl]);
        assert(s[i + prev.len()] == 48 + (n % 10));
        assert(seg_val(s, i, i + ds.len()) == seg_val(s, i, i + prev.len()) * 10 + (s[i
            + prev.len()] - 48));
        assert(n / 10 * 10 + n % 10 == n) by {
            vstd::arithmetic::div_mod::lemma_fundamental_div_mod(n as int, 10);
        }
    }
}

/// Reading back `w` zero-padded digits of `n` yields `n`, for `n < 10^w`.
proof fn lemma_seg_val_of_pad_digits(s: Seq<u8>, i: int, n: nat, w: nat)
    requires
        0 <= i,
        i + w <= s.len(),
        n < pow10(w),
        forall|k: int| 0 <= k < w ==> s[i + k] == pad_digits(n, w)[k],
    ensures
        seg_val(s, i, i + w) == n,
    decreases w,
{
    if w == 0 {
    } else {
        lemma_pad_digits_wf(n, w);
        lemma_pad_digits_wf(n / 10, (w - 1) as nat);
        let ws = pad_digits(n, w);
        let prev = pad_digits(n / 10, (w - 1) as nat);
        assert(ws == prev.push((48 + (n % 10)) as u8));
        assert forall|k: int| 0 <= k < prev.len() implies s[i + k] == prev[k] by {
            assert(s[i + k] == ws[k]);
        }
        assert(n / 10 < pow10((w - 1) as nat)) by {
            lemma_pow10_pos((w - 1) as nat);
            vstd::arithmetic::div_mod::lemma_fundamental_div_mod(n as int, 10);
        }
        lemma_seg_val_of_pad_digits(s, i, n / 10, (w - 1) as nat);
        let kl = (w - 1) as int;
        assert(s[i + kl] == ws[kl]);
        assert(s[i + (w - 1)] == 48 + (n % 10));
        assert(n / 10 * 10 + n % 10 == n) by {
            vstd::arithmetic::div_mod::lemma_fundamental_div_mod(n as int, 10);
        }
    }
}

/// Every byte of a rendered value is a sign, a dot, or a digit.
pub proof fn lemma_format_fixed_bytes(v: int)
    ensures
        spec_format_fixed(v).len() >= 1,
        forall|k: int|
            0 <= k < spec_format_fixed(v).len() ==> (spec_format_fixed(v)[k] == 45
                || spec_format_fixed(v)[k] == 46 || is_digit(#[trigger] spec_format_fixed(v)[k])),
{
    let m = if v < 0 {
        -v
    } else {
        v
    };
    let ds = dec_digits((m / 1_000_000) as nat);
    let ps = pad_digits((m % 1_000_000) as nat, 6);
    let b: int = if v < 0 {
        1
    } else {
        0
    };
    lemma_dec_digits_wf((m / 1_000_000) as nat);
    lemma_pad_digits_wf((m % 1_000_000) as nat, 6);
    let s = spec_format_fixed(v);
    assert forall|k: int|
        0 <= k < s.len() implies (s[k] == 45 || s[k] == 46 || is_digit(#[trigger] s[k])) by {
        if k < b {
            assert(s[k] == 45);
        } else if k < b + ds.len() {
            assert(s[k] == ds[k - b]);
        } else if k == b + ds.len() {
            assert(s[k] == 46);
        } else {
            assert(s[k] == ps[k - (b + ds.len() + 1)]);
        }
    }
}

/// A value written by this library reads back exactly: rendering and
/// re-parsing is the identity on the micro-unit values the library stores.
pub proof fn lemma_parse_format(v: int)
    requires
        in_val_range(v),
    ensures
        parse_decimal(spec_format_fixed(v)) == Option::<int>::Some(v),
{
    let m = if v < 0 {
        -v
    } else {
        v
    };
    let ipn = (m / 1_000_000) as nat;
    let frn = (m % 1_000_000) as nat;
    let ds = dec_digits(ipn);
    let ps = pad_digits(frn, 6);
    let s = spec_format_fixed(v);
    let b = if v < 0 {
        1int
    } else {
        0int
    };
    lemma_dec_digits_wf(ipn);
    lemma_pad_digits_wf(frn, 6);
    lemma_pow10_vals();
    assert(0 <= m % 1_000_000 < 1_000_000) by {
        vstd::arithmetic::div_mod::lemma_fundamental_div_mod(m, 1_000_000);
    }
    let dot = b + ds.len();
    assert(s.len() == b + ds.len() + 1 + 6);
    assert(forall|k: int| 0 <= k < ds.len() ==> s[b + k] == ds[k]);
    assert(forall|k: int| 0 <= k < 6 ==> s[dot + 1 + k] == ps[k]);
    assert(s[dot] == 46);
    // the digit runs hold no dot, so the first dot is at `dot`
    assert(forall|j: int| b <= j < dot ==> s[j] != 46);
    lemma_find_byte_is(s, 46, b, dot);
    assert(dec_body(s) == b);
    assert(digits_in(s, b, dot));
    assert(digits_in(s, dot + 1, s.len() as int));
    lemma_seg_val_of_dec_digits(s, b, ipn);
    lemma_seg_val_of_pad_digits(s, dot + 1, frn, 6);
    assert(frac_val(s, dot + 1, s.len() as int) == frn);
    assert(dec_magnitude(s, b) == Option::<int>::Some((ipn * 1_000_000 + frn) as int));
    assert(ipn * 1_000_000 + frn == m) by {
        vstd::arithmetic::div_mod::lemma_fundamental_div_mod(m, 1_000_000);
    }
    if v < 0 {
        assert(dec_sign(s) == -1);
    } else {
        assert(is_digit(s[0]));
        assert(dec_sign(s) == 1);
    }
}

fn push_dec_digits(n: u64, out: &mut Vec<u8>)
    ensures
        final(out)@ == old(out)@ + dec_digits(n as nat),
    decreases n,
{
    if n < 10 {
        out.push(48 + n as u8);
    } else {
        push_dec_digits(n / 10, out);
        out.push(48 + (n % 10) as u8);
        assert(out@ =~= old(out)@ + dec_digits(n as nat));
    }
}

pub(crate) fn push_pad_digits(n: u64, w: u32, out: &mut Vec<u8>)
    ensures
        final(out)@ == old(out)@ + pad_digits(n as nat, w as nat),
    decreases w,
{
    if w == 0 {
        assert(out@ =~= old(out)@ + pad_digits(n as nat, 0));
    } else {
        push_pad_digits(n / 10, w - 1, out);
        out.push(48 + (n % 10) as u8);
        assert(out@ =~= old(out)@ + pad_digits(n as nat, w as nat));
    }
}

/// Renders the micro-unit value `v` as decimal text with six fractional
/// digits; `parse_decimal` reads the result back as exactly `v`.
pub fn format_fixed(v: i64) -> (r: Vec<u8>)
    requires
        in_val_range(v as int),
    ensures
        r@ == spec_format_fixed(v as int),
        parse_decimal(r@) == Option::<int>::Some(v as int),
{
    let mut out: Vec<u8> = Vec::new();
    let m: i64 = if v < 0 {
        out.push(45);
        -v
    } else {
        v
    };
    let ip: u64 = (m / 1_000_000) as u64;
    let fr: u64 = (m % 1_000_000) as u64;
    push_dec_digits(ip, &mut out);
    out.push(46);
    push_pad_digits(fr, 6, &mut out);
    proof {
        assert(out@ =~= spec_format_fixed(v as int));
        lemma_parse_format(v as int);
    }
    out
}

} // verus!
