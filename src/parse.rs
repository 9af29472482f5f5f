//! Field parsers: integers, fixed-point decimals and calendar dates.
//!
//! Malformed or empty text never raises an error: it yields `None`.
use vstd::prelude::*;
use vstd::string::*;
use crate::text::{chars_of, trim, trim_spec};

verus! {

/// Largest magnitude of a parsed fixed-point value; larger text is treated as malformed.
pub const MAX_SCALED: i64 = 1_000_000_000_000_000;

/// Largest number of decimal places `parse_decimal` scales by.
pub const MAX_PLACES: usize = 6;

/// Cap of the running value of a digit scan; above every accepted magnitude.
const SCAN_CAP: u64 = 10_000_000_000_000_000;

pub open spec fn is_digit(c: char) -> bool {
    '0' <= c && c <= '9'
}

pub open spec fn digit_value(c: char) -> int {
    c as int - '0' as int
}

pub open spec fn all_digits(s: Seq<char>) -> bool {
    forall|i: int| 0 <= i < s.len() ==> is_digit(#[trigger] s[i])
}

/// The number a run of decimal digits denotes.
pub open spec fn digits_value(s: Seq<char>) -> int
    decreases s.len(),
{
    if s.len() == 0 {
        0
    } else {
        digits_value(s.drop_last()) * 10 + digit_value(s.last())
    }
}

pub open spec fn pow10(p: nat) -> int
    decreases p,
{
    if p == 0 {
        1
    } else {
        10 * pow10((p - 1) as nat)
    }
}

/// Length of a leading `+` or `-`.
pub open spec fn sign_len(s: Seq<char>) -> int {
    if s.len() > 0 && (s[0] == '+' || s[0] == '-') {
        1
    } else {
        0
    }
}

pub open spec fn negate_if(neg: bool, v: int) -> int {
    if neg {
        -v
    } else {
        v
    }
}

pub open spec fn is_negative(s: Seq<char>) -> bool {
    s.len() > 0 && s[0] == '-'
}

/// An optionally signed run of at least one digit, and its value.
pub open spec fn integer_value(s: Seq<char>) -> Option<int> {
    let d = s.subrange(sign_len(s), s.len() as int);
    if d.len() > 0 && all_digits(d) {
        Some(negate_if(is_negative(s), digits_value(d)))
    } else {
        None
    }
}

/// What `parse_int` returns: the trimmed text as a signed 32-bit integer.
pub open spec fn parse_int_spec(s: Seq<char>) -> Option<int> {
    match integer_value(trim_spec(s)) {
        Some(v) => if i32::MIN <= v <= i32::MAX {
            Some(v)
        } else {
            None
        },
        None => None,
    }
}

/// Scans the digits of `s[from..to]`; `Some(min(value, SCAN_CAP))`, or `None` on a non-digit.
fn scan_digits(s: &Vec<char>, from: usize, to: usize) -> (r: Option<u64>)
    requires
        from <= to <= s@.len(),
    ensures
        r is Some <==> all_digits(s@.subrange(from as int, to as int)),
        r matches Some(v) ==> v == if digits_value(s@.subrange(from as int, to as int))
            < SCAN_CAP {
            digits_value(s@.subrange(from as int, to as int))
        } else {
            SCAN_CAP as int
        },
{
    let mut v: u64 = 0;
    let mut i: usize = from;
    while i < to
        invariant
            from <= i <= to <= s@.len(),
            all_digits(s@.subrange(from as int, i as int)),
            v == if digits_value(s@.subrange(from as int, i as int)) < SCAN_CAP {
                digits_value(s@.subrange(from as int, i as int))
            } else {
                SCAN_CAP as int
            },
        decreases to - i,
    {
        let c = s[i];
        if !('0' <= c && c <= '9') {
            assert(!is_digit(s@.subrange(from as int, to as int)[i - from]));
            return None;
        }
        let ghost prev = s@.subrange(from as int, i as int);
        let ghost next = s@.subrange(from as int, i + 1);
        assert(next.drop_last() =~= prev);
        assert(digits_value(next) == digits_value(prev) * 10 + digit_value(c));
        assert(digits_value(prev) >= 0) by {
            lemma_digits_value_nonneg(prev);
        }
        let d = (c as u32 - '0' as u32) as u64;
        if v >= SCAN_CAP / 10 {
            v = SCAN_CAP;
        } else {
            v = v * 10 + d;
            if v > SCAN_CAP {
                v = SCAN_CAP;
            }
        }
        i = i + 1;
    }
    Some(v)
}

proof fn lemma_digits_value_nonneg(s: Seq<char>)
    requires
        all_digits(s),
    ensures
        digits_value(s) >= 0,
    decreases s.len(),
{
    if s.len() > 0 {
        assert(is_digit(s[s.len() - 1]));
        lemma_digits_value_nonneg(s.drop_last());
    }
}

/// Converts trimmed text into an `i32`; `None` when empty or not an integer.
pub fn parse_int(s: &str) -> (r: Option<i32>)
    ensures
        r matches Some(v) ==> parse_int_spec(s@) == Some(v as int),
        r is None ==> parse_int_spec(s@) is None,
{
    let t = trim(s);
    let c = chars_of(t.as_str());
    let n = c.len();
    let start: usize = if n > 0 && (c[0] == '+' || c[0] == '-') {
        1
    } else {
        0
    };
    assert(start == sign_len(c@));
    if start >= n {
        return None;
    }
    match scan_digits(&c, start, n) {
        None => None,
        Some(v) => {
            proof {
                lemma_digits_value_nonneg(c@.subrange(start as int, n as int));
            }
            if v > 2147483648 {
                None
            } else if n > 0 && c[0] == '-' {
                Some((0 - v as i64) as i32)
            } else if v > 2147483647 {
                None
            } else {
                Some(v as i32)
            }
        },
    }
}


/// The text with every `,` (thousands separator) taken out.
pub open spec fn without_commas(s: Seq<char>) -> Seq<char>
    decreases s.len(),
{
    if s.len() == 0 {
        s
    } else if s.last() == ',' {
        without_commas(s.drop_last())
    } else {
        without_commas(s.drop_last()).push(s.last())
    }
}

/// `k` is the position of the first `.` in `b`.
pub open spec fn is_first_dot(b: Seq<char>, k: int) -> bool {
    0 <= k < b.len() && b[k] == '.' && forall|j: int| 0 <= j < k ==> b[j] != '.'
}

/// Position of the first `.` in `b`, or its length when there is none.
pub open spec fn dot_pos(b: Seq<char>) -> int {
    if exists|k: int| is_first_dot(b, k) {
        choose|k: int| is_first_dot(b, k)
    } else {
        b.len() as int
    }
}

/// The digit at position `i`, or 0 past the end.
pub open spec fn digit_at(s: Seq<char>, i: int) -> int {
    if 0 <= i < s.len() {
        digit_value(s[i])
    } else {
        0
    }
}

/// The first `p` fraction digits as an integer, padded with zeros.
pub open spec fn frac_value(f: Seq<char>, p: nat) -> int
    decreases p,
{
    if p == 0 {
        0
    } else {
        frac_value(f, (p - 1) as nat) * 10 + digit_at(f, p - 1)
    }
}

/// The fraction digits after the first `.`, empty when there is none.
pub open spec fn frac_part(b: Seq<char>) -> Seq<char> {
    if dot_pos(b) < b.len() {
        b.subrange(dot_pos(b) + 1, b.len() as int)
    } else {
        Seq::empty()
    }
}

/// Unsigned decimal text scaled by `10^p`, rounded half away from zero at the next digit.
pub open spec fn unsigned_decimal(b: Seq<char>, p: nat) -> Option<int> {
    let ip = b.subrange(0, dot_pos(b));
    let fp = frac_part(b);
    if ip.len() + fp.len() > 0 && all_digits(ip) && all_digits(fp) {
        Some(digits_value(ip) * pow10(p) + frac_value(fp, p) + if digit_at(fp, p as int) >= 5 {
            1int
        } else {
            0int
        })
    } else {
        None
    }
}

/// Signed decimal text scaled by `10^p`.
pub open spec fn decimal_value(c: Seq<char>, p: nat) -> Option<int> {
    match unsigned_decimal(c.subrange(sign_len(c), c.len() as int), p) {
        Some(v) => Some(negate_if(is_negative(c), v)),
        None => None,
    }
}

/// What `parse_decimal` returns: trimmed text without thousands separators, scaled by `10^p`.
pub open spec fn parse_decimal_spec(s: Seq<char>, p: nat) -> Option<int> {
    match decimal_value(without_commas(trim_spec(s)), p) {
        Some(v) => if -MAX_SCALED <= v <= MAX_SCALED {
            Some(v)
        } else {
            None
        },
        None => None,
    }
}

proof fn lemma_pow10_small(q: nat)
    requires
        q <= 6,
    ensures
        1 <= pow10(q) <= 1_000_000,
        q < 6 ==> pow10(q) <= 100_000,
{
    reveal_with_fuel(pow10, 7);
}

proof fn lemma_frac_bounds(f: Seq<char>, p: nat)
    requires
        all_digits(f),
    ensures
        0 <= frac_value(f, p) < pow10(p),
    decreases p,
{
    if p > 0 {
        lemma_frac_bounds(f, (p - 1) as nat);
        if p - 1 < f.len() {
            assert(is_digit(f[p - 1]));
        }
        let a = frac_value(f, (p - 1) as nat);
        let d = digit_at(f, p - 1);
        assert(a * 10 + d < pow10((p - 1) as nat) * 10) by (nonlinear_arith)
            requires
                0 <= a < pow10((p - 1) as nat),
                0 <= d <= 9,
        ;
    }
}

fn remove_commas(c: &Vec<char>) -> (r: Vec<char>)
    ensures
        r@ == without_commas(c@),
{
    let mut r: Vec<char> = Vec::new();
    let mut i: usize = 0;
    while i < c.len()
        invariant
            i <= c@.len(),
            r@ == without_commas(c@.subrange(0, i as int)),
        decreases c@.len() - i,
    {
        assert(c@.subrange(0, i + 1).drop_last() =~= c@.subrange(0, i as int));
        if c[i] != ',' {
            r.push(c[i]);
        }
        i = i + 1;
    }
    assert(c@.subrange(0, c@.len() as int) =~= c@);
    r
}

/// Position of the first `.` at or after `start`, or the length when there is none.
fn find_dot(c: &Vec<char>, start: usize) -> (k: usize)
    requires
        start <= c@.len(),
    ensures
        start <= k <= c@.len(),
        k - start == dot_pos(c@.subrange(start as int, c@.len() as int)),
{
    let n = c.len();
    let ghost b = c@.subrange(start as int, n as int);
    let mut k: usize = start;
    while k < n && c[k] != '.'
        invariant
            start <= k <= n == c@.len(),
            forall|j: int| start <= j < k ==> c@[j] != '.',
        decreases n - k,
    {
        k = k + 1;
    }
    proof {
        if k < n {
            assert(is_first_dot(b, k - start));
            assert forall|q: int| is_first_dot(b, q) implies q == k - start by {
                if q < k - start {
                    assert(b[q] == c@[start + q]);
                }
                if q > k - start {
                    assert(b[k - start] == '.');
                }
            }
        } else {
            assert forall|q: int| !is_first_dot(b, q) by {
                if 0 <= q < b.len() {
                    assert(b[q] == c@[start + q]);
                }
            }
        }
    }
    k
}

/// The first `places` digits of `c[fstart..]` as an integer, `10^places`, and the rounding unit.
fn fraction_digits(c: &Vec<char>, fstart: usize, places: usize) -> (r: (i128, i128, i128))
    requires
        fstart <= c@.len(),
        places <= MAX_PLACES,
        all_digits(c@.subrange(fstart as int, c@.len() as int)),
    ensures
        r.0 == frac_value(c@.subrange(fstart as int, c@.len() as int), places as nat),
        r.1 == pow10(places as nat),
        r.2 == if digit_at(c@.subrange(fstart as int, c@.len() as int), places as int) >= 5 {
            1int
        } else {
            0int
        },
        0 <= r.0 < r.1 <= 1_000_000,
{
    let n = c.len();
    let ghost fp = c@.subrange(fstart as int, n as int);
    let mut fv: i128 = 0;
    let mut scale: i128 = 1;
    let mut q: usize = 0;
    while q < places
        invariant
            q <= places <= MAX_PLACES,
            fstart <= n == c@.len(),
            fp == c@.subrange(fstart as int, n as int),
            all_digits(fp),
            scale == pow10(q as nat),
            0 <= fv < scale <= 1_000_000,
            fv == frac_value(fp, q as nat),
        decreases places - q,
    {
        proof {
            lemma_pow10_small(q as nat);
        }
        let d: i128 = if q < n - fstart {
            assert(is_digit(fp[q as int]));
            (c[fstart + q] as u32 - '0' as u32) as i128
        } else {
            0
        };
        assert(d == digit_at(fp, q as int));
        assert(fv * 10 + d < scale * 10) by (nonlinear_arith)
            requires
                fv < scale,
                0 <= d <= 9,
        ;
        fv = fv * 10 + d;
        scale = scale * 10;
        q = q + 1;
        proof {
            lemma_pow10_small(q as nat);
        }
    }
    let up: i128 = if places < n - fstart && c[fstart + places] >= '5' {
        1
    } else {
        0
    };
    proof {
        if places < n - fstart {
            assert(is_digit(fp[places as int]));
        }
    }
    (fv, scale, up)
}

/// Parses decimal text (thousands separators allowed) into an integer count of `10^-places`
/// units, rounding half away from zero; `None` when empty, malformed or beyond `MAX_SCALED`.
pub fn parse_decimal(s: &str, places: usize) -> (r: Option<i64>)
    requires
        places <= MAX_PLACES,
    ensures
        r matches Some(v) ==> parse_decimal_spec(s@, places as nat) == Some(v as int),
        r is None ==> parse_decimal_spec(s@, places as nat) is None,
{
    let t = trim(s);
    let c0 = chars_of(t.as_str());
    let c = remove_commas(&c0);
    let n = c.len();
    let start: usize = if n > 0 && (c[0] == '+' || c[0] == '-') {
        1
    } else {
        0
    };
    let ghost b = c@.subrange(start as int, n as int);
    assert(start == sign_len(c@));
    let k = find_dot(&c, start);
    let ghost ip = b.subrange(0, dot_pos(b));
    let ghost fp = frac_part(b);
    let fstart: usize = if k < n {
        k + 1
    } else {
        n
    };
    assert(ip =~= c@.subrange(start as int, k as int));
    assert(fp =~= c@.subrange(fstart as int, n as int));
    if k - start + (n - fstart) == 0 {
        return None;
    }
    let iv = match scan_digits(&c, start, k) {
        None => {
            return None;
        },
        Some(v) => v,
    };
    match scan_digits(&c, fstart, n) {
        None => {
            return None;
        },
        Some(_) => {},
    }
    proof {
        lemma_digits_value_nonneg(ip);
        lemma_frac_bounds(fp, places as nat);
        lemma_pow10_small(places as nat);
    }
    let (fv, scale, up) = fraction_digits(&c, fstart, places);
    if iv >= SCAN_CAP {
        assert(digits_value(ip) * pow10(places as nat) >= digits_value(ip)) by (nonlinear_arith)
            requires
                digits_value(ip) >= 0,
                pow10(places as nat) >= 1,
        ;
        return None;
    }
    assert(iv as int * scale <= SCAN_CAP as int * 1_000_000) by (nonlinear_arith)
        requires
            0 <= iv < SCAN_CAP,
            1 <= scale <= 1_000_000,
    ;
    let mag: i128 = iv as i128 * scale + fv + up;
    assert(unsigned_decimal(b, places as nat) == Some(mag as int));
    let v: i128 = if n > 0 && c[0] == '-' {
        -mag
    } else {
        mag
    };
    assert(decimal_value(c@, places as nat) == Some(v as int));
    if v < -(MAX_SCALED as i128) || v > MAX_SCALED as i128 {
        None
    } else {
        Some(v as i64)
    }
}

/// The day number (days from the common era, 0001-01-01 being day 1) of the date that
/// chrono's `NaiveDate::parse_from_str` reads from `text` with the pattern `fmt`.
pub uninterp spec fn date_by_format(text: Seq<char>, fmt: Seq<char>) -> Option<int>;

/// Relies on chrono's `NaiveDate::parse_from_str`, whose result depends on the text and the
/// pattern alone, and on `Datelike::num_days_from_ce`, which numbers the parsed date.
#[verifier::external_body]
fn date_in_format(text: &str, fmt: &str) -> (r: Option<i32>)
    ensures
        r matches Some(d) ==> date_by_format(text@, fmt@) == Some(d as int),
        r is None ==> date_by_format(text@, fmt@) is None,
{
    match chrono::NaiveDate::parse_from_str(text, fmt) {
        Ok(d) => Some(chrono::Datelike::num_days_from_ce(&d)),
        Err(_) => None,
    }
}

/// The date patterns tried, in order: day-first numeric, ISO, month-first numeric,
/// two-digit year with month abbreviation, and two month-name forms.
pub open spec fn date_formats() -> Seq<Seq<char>> {
    seq!["%d/%m/%Y"@, "%Y-%m-%d"@, "%m/%d/%Y"@, "%d-%b-%y"@, "%b %d, %Y"@, "%B %d, %Y"@]
}

/// The first pattern at or after `i` that reads a date from `t`.
pub open spec fn first_date(t: Seq<char>, i: int) -> Option<int>
    decreases date_formats().len() - i,
{
    if i < 0 || i >= date_formats().len() {
        None
    } else if date_by_format(t, date_formats()[i]) is Some {
        date_by_format(t, date_formats()[i])
    } else {
        first_date(t, i + 1)
    }
}

/// What `try_parse_date` returns: the trimmed text read by the first pattern that fits.
pub open spec fn parse_date_spec(s: Seq<char>) -> Option<int> {
    let t = trim_spec(s);
    if t.len() == 0 {
        None
    } else {
        first_date(t, 0)
    }
}

/// Reads a calendar date as a day number, trying the patterns of `date_formats` in order;
/// so `01/02/2022` is the first of February.
pub fn try_parse_date(s: &str) -> (r: Option<i32>)
    ensures
        r matches Some(d) ==> parse_date_spec(s@) == Some(d as int),
        r is None ==> parse_date_spec(s@) is None,
{
    let t = trim(s);
    let ts = t.as_str();
    if ts.unicode_len() == 0 {
        return None;
    }
    let ghost fs = date_formats();
    proof {
        reveal_strlit("%d/%m/%Y");
        reveal_with_fuel(first_date, 7);
    }
    let r = date_in_format(ts, "%d/%m/%Y");
    if r.is_some() {
        return r;
    }
    let r = date_in_format(ts, "%Y-%m-%d");
    if r.is_some() {
        return r;
    }
    let r = date_in_format(ts, "%m/%d/%Y");
    if r.is_some() {
        return r;
    }
    let r = date_in_format(ts, "%d-%b-%y");
    if r.is_some() {
        return r;
    }
    let r = date_in_format(ts, "%b %d, %Y");
    if r.is_some() {
        return r;
    }
    date_in_format(ts, "%B %d, %Y")
}

} // verus!
