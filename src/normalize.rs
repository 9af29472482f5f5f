//! Min-max normalization of raw scores onto 0..=100, in hundredths. Raw scores are exact
//! fractions `(numerator, denominator)` with a positive denominator.
use vstd::prelude::*;
use crate::stats::{FRAC_LIMIT, frac_ge, lemma_round_at_least, round_half_away};

verus! {

/// Largest magnitude of a raw score's numerator.
pub const NUM_LIMIT: i128 = 0x1_0000_0000_0000_0000_0000;

/// Largest raw score denominator.
pub const DEN_LIMIT: i128 = 0x10_0000_0000_0000;

/// 100 in hundredths: the top of the normalized range.
pub const FULL_SCALE: i128 = 10000;

/// `a <= b` as fractions with positive denominators.
pub open spec fn ratio_le(a: (int, int), b: (int, int)) -> bool {
    a.0 * b.1 <= b.0 * a.1
}

/// `lo` is a least positive score of `s`.
pub open spec fn is_positive_min(s: Seq<(int, int)>, lo: (int, int)) -> bool {
    &&& lo.0 > 0
    &&& exists|i: int| 0 <= i < s.len() && s[i] == lo
    &&& forall|j: int| 0 <= j < s.len() && s[j].0 > 0 ==> ratio_le(lo, #[trigger] s[j])
}

/// `hi` is a greatest positive score of `s`.
pub open spec fn is_positive_max(s: Seq<(int, int)>, hi: (int, int)) -> bool {
    &&& hi.0 > 0
    &&& exists|i: int| 0 <= i < s.len() && s[i] == hi
    &&& forall|j: int| 0 <= j < s.len() && s[j].0 > 0 ==> ratio_le(#[trigger] s[j], hi)
}

/// `(hi - lo)` scaled by both denominators.
pub open spec fn span(lo: (int, int), hi: (int, int)) -> int {
    hi.0 * lo.1 - lo.0 * hi.1
}

/// A raw score `x` rescaled exactly by `(x - lo) / (hi - lo) * 100`, in hundredths, rounded
/// half away from zero. Scores that are not positive, and every score when all positive
/// scores are equal, become 0.
pub open spec fn scaled(x: (int, int), lo: (int, int), hi: (int, int)) -> int {
    if x.0 > 0 && span(lo, hi) > 0 {
        round_half_away((x.0 * lo.1 - lo.0 * x.1) * hi.1 * FULL_SCALE, x.1 * span(lo, hi))
    } else {
        0
    }
}

/// `r` is `s` normalized: min and max are taken over the positive scores only.
pub open spec fn normalizes(r: Seq<int>, s: Seq<(int, int)>) -> bool {
    &&& r.len() == s.len()
    &&& {
        ||| (forall|i: int| 0 <= i < s.len() ==> s[i].0 <= 0) && (forall|i: int|
            0 <= i < r.len() ==> r[i] == 0)
        ||| exists|lo: (int, int), hi: (int, int)|
            is_positive_min(s, lo) && is_positive_max(s, hi) && forall|i: int|
                0 <= i < r.len() ==> #[trigger] r[i] == scaled(s[i], lo, hi)
    }
}

pub open spec fn as_ints(s: Seq<i128>) -> Seq<int> {
    s.map_values(|x: i128| x as int)
}

pub open spec fn as_ratios(s: Seq<(i128, i128)>) -> Seq<(int, int)> {
    s.map_values(|x: (i128, i128)| (x.0 as int, x.1 as int))
}

/// Every score has a positive denominator and fits the limits.
pub open spec fn ratios_ok(s: Seq<(i128, i128)>) -> bool {
    forall|i: int|
        0 <= i < s.len() ==> 0 < (#[trigger] s[i]).1 <= DEN_LIMIT && -NUM_LIMIT <= s[i].0
            <= NUM_LIMIT
}

proof fn lemma_ratio_le_trans(a: (int, int), b: (int, int), c: (int, int))
    requires
        a.1 > 0,
        b.1 > 0,
        c.1 > 0,
        ratio_le(a, b),
        ratio_le(b, c),
    ensures
        ratio_le(a, c),
{
    assert(b.1 * (a.0 * c.1 - c.0 * a.1) <= 0) by (nonlinear_arith)
        requires
            a.0 * b.1 <= b.0 * a.1,
            b.0 * c.1 <= c.0 * b.1,
            a.1 > 0,
            c.1 > 0,
    ;
    assert(a.0 * c.1 - c.0 * a.1 <= 0) by (nonlinear_arith)
        requires
            b.1 * (a.0 * c.1 - c.0 * a.1) <= 0,
            b.1 > 0,
    ;
}

/// Normalizes raw scores onto 0..=100 in hundredths: positive scores by exact min-max over
/// the positive scores, everything else to 0; when all positive scores are equal they all
/// become 0.
pub fn normalize_ratios(raw: &Vec<(i128, i128)>) -> (r: Vec<i128>)
    requires
        ratios_ok(raw@),
    ensures
        normalizes(as_ints(r@), as_ratios(raw@)),
        forall|i: int| 0 <= i < r@.len() ==> 0 <= #[trigger] r@[i] <= FULL_SCALE,
{
    let ghost s = as_ratios(raw@);
    let n = raw.len();
    let mut found = false;
    let mut lo: usize = 0;
    let mut hi: usize = 0;
    let mut i: usize = 0;
    while i < n
        invariant
            n == raw@.len(),
            s == as_ratios(raw@),
            ratios_ok(raw@),
            i <= n,
            !found ==> forall|j: int| 0 <= j < i ==> s[j].0 <= 0,
            found ==> lo < i && hi < i && s[lo as int].0 > 0 && s[hi as int].0 > 0,
            found ==> forall|j: int|
                0 <= j < i && s[j].0 > 0 ==> ratio_le(s[lo as int], #[trigger] s[j]) && ratio_le(
                    s[j],
                    s[hi as int],
                ),
        decreases n - i,
    {
        let x = raw[i];
        assert(s[i as int] == (x.0 as int, x.1 as int));
        if x.0 > 0 {
            if !found {
                found = true;
                lo = i;
                hi = i;
            } else {
                let l = raw[lo];
                let h = raw[hi];
                assert(s[lo as int] == (l.0 as int, l.1 as int));
                assert(s[hi as int] == (h.0 as int, h.1 as int));
                if !frac_ge(x.0, x.1, l.0, l.1) {
                    proof {
                        assert forall|j: int| 0 <= j < i && s[j].0 > 0 implies ratio_le(
                            s[i as int],
                            #[trigger] s[j],
                        ) by {
                            lemma_ratio_le_trans(s[i as int], s[lo as int], s[j]);
                        }
                    }
                    lo = i;
                }
                if frac_ge(x.0, x.1, h.0, h.1) {
                    proof {
                        assert forall|j: int| 0 <= j < i && s[j].0 > 0 implies ratio_le(
                            #[trigger] s[j],
                            s[i as int],
                        ) by {
                            lemma_ratio_le_trans(s[j], s[hi as int], s[i as int]);
                        }
                    }
                    hi = i;
                }
            }
        }
        i = i + 1;
    }
    let mut r: Vec<i128> = Vec::new();
    let mut k: usize = 0;
    let ghost l = if found { s[lo as int] } else { (1int, 1int) };
    let ghost h = if found { s[hi as int] } else { (1int, 1int) };
    let spread = found && !frac_ge(raw[lo].0, raw[lo].1, raw[hi].0, raw[hi].1);
    while k < n
        invariant
            n == raw@.len(),
            s == as_ratios(raw@),
            ratios_ok(raw@),
            k <= n,
            r@.len() == k,
            !found ==> forall|j: int| 0 <= j < n ==> s[j].0 <= 0,
            found ==> lo < n && hi < n && l == s[lo as int] && h == s[hi as int] && l.0 > 0
                && h.0 > 0,
            found ==> forall|j: int|
                0 <= j < n && s[j].0 > 0 ==> ratio_le(l, #[trigger] s[j]) && ratio_le(s[j], h),
            spread == (found && span(l, h) > 0),
            found ==> forall|j: int| 0 <= j < k ==> #[trigger] r@[j] == scaled(s[j], l, h),
            !found ==> forall|j: int| 0 <= j < k ==> #[trigger] r@[j] == 0,
            forall|j: int| 0 <= j < k ==> 0 <= #[trigger] r@[j] <= FULL_SCALE,
        decreases n - k,
    {
        let x = raw[k];
        assert(s[k as int] == (x.0 as int, x.1 as int));
        let v: i128 = if x.0 > 0 && spread {
            scaled_score(x, raw[lo], raw[hi])
        } else {
            0
        };
        r.push(v);
        k = k + 1;
    }
    proof {
        let rs = as_ints(r@);
        assert forall|j: int| 0 <= j < rs.len() implies rs[j] == r@[j] by {}
        if found {
            assert(is_positive_min(s, l));
            assert(is_positive_max(s, h));
            assert forall|j: int| 0 <= j < rs.len() implies #[trigger] rs[j] == scaled(s[j], l, h) by {
                assert(rs[j] == r@[j]);
            }
        } else {
            assert forall|j: int| 0 <= j < rs.len() implies rs[j] == 0 by {
                assert(rs[j] == r@[j]);
            }
        }
    }
    r
}

/// The normalized score of one positive raw score between the positive minimum and maximum.
fn scaled_score(x: (i128, i128), l: (i128, i128), h: (i128, i128)) -> (r: i128)
    requires
        x.0 > 0,
        l.0 > 0,
        h.0 > 0,
        0 < x.1 <= DEN_LIMIT,
        0 < l.1 <= DEN_LIMIT,
        0 < h.1 <= DEN_LIMIT,
        x.0 <= NUM_LIMIT,
        l.0 <= NUM_LIMIT,
        h.0 <= NUM_LIMIT,
        ratio_le((l.0 as int, l.1 as int), (x.0 as int, x.1 as int)),
        ratio_le((x.0 as int, x.1 as int), (h.0 as int, h.1 as int)),
        span((l.0 as int, l.1 as int), (h.0 as int, h.1 as int)) > 0,
    ensures
        r == scaled((x.0 as int, x.1 as int), (l.0 as int, l.1 as int), (h.0 as int, h.1 as int)),
        0 <= r <= FULL_SCALE,
{
    let ghost (x0, x1, l0, l1, h0, h1) = (
        x.0 as int,
        x.1 as int,
        l.0 as int,
        l.1 as int,
        h.0 as int,
        h.1 as int,
    );
    let (ia, ra) = split(x.0, x.1);
    let (ip, rp) = split(l.0, l.1);
    let (ih, rh) = split(h.0, h.1);
    proof {
        lemma_part_bounds(ra as int, x1, l1);
        lemma_part_bounds(rp as int, l1, x1);
        lemma_part_bounds(rh as int, h1, l1);
        lemma_part_bounds(rp as int, l1, h1);
    }
    let ix = ia - ip;
    let fxn = ra * l.1 - rp * x.1;
    let fxd = x.1 * l.1;
    let ihh = ih - ip;
    let fhn = rh * l.1 - rp * h.1;
    let fhd = h.1 * l.1;
    let ghost nx = x0 * l1 - l0 * x1;
    let ghost dh = h0 * l1 - l0 * h1;
    proof {
        lemma_split_difference(x0, x1, l0, l1, ia as int, ra as int, ip as int, rp as int);
        lemma_split_difference(h0, h1, l0, l1, ih as int, rh as int, ip as int, rp as int);
        assert(nx >= 0);
        assert(nx * h1 <= x1 * dh) by (nonlinear_arith)
            requires
                x0 * h1 <= h0 * x1,
                nx == x0 * l1 - l0 * x1,
                dh == h0 * l1 - l0 * h1,
                l1 > 0,
        ;
        assert(x1 * dh > 0) by (nonlinear_arith)
            requires
                x1 > 0,
                dh > 0,
        ;
        assert(nx * h1 >= 0) by (nonlinear_arith)
            requires
                nx >= 0,
                h1 > 0,
        ;
        assert(nx * h1 * FULL_SCALE <= (x1 * dh) * FULL_SCALE) by (nonlinear_arith)
            requires
                nx * h1 <= x1 * dh,
        ;
        lemma_round_at_least(nx * h1 * FULL_SCALE, x1 * dh, FULL_SCALE as int + 1);
        lemma_score_step(nx, dh, x1, l1, h1, FULL_SCALE as int);
        assert((2 * (FULL_SCALE as int + 1) - 1) * (x1 * dh) > 2 * (nx * h1 * FULL_SCALE))
            by (nonlinear_arith)
            requires
                nx * h1 * FULL_SCALE <= (x1 * dh) * FULL_SCALE,
                x1 * dh > 0,
        ;
    }
    if score_at_least(ix, fxn, fxd, ihh, fhn, fhd, 10000) {
        return FULL_SCALE;
    }
    proof {
        lemma_round_at_least(nx * h1 * FULL_SCALE, x1 * dh, 1);
    }
    let mut lo: i128 = 0;
    let mut hi: i128 = FULL_SCALE;
    while hi - lo > 1
        invariant
            0 <= lo < hi <= FULL_SCALE,
            -0x2_0000_0000_0000_0000_0000 <= ix <= 0x2_0000_0000_0000_0000_0000,
            -0x2_0000_0000_0000_0000_0000 <= ihh <= 0x2_0000_0000_0000_0000_0000,
            0 < fxd <= DEN_LIMIT * DEN_LIMIT,
            0 < fhd <= DEN_LIMIT * DEN_LIMIT,
            -fxd < fxn < fxd,
            -fhd < fhn < fhd,
            fxd == x1 * l1,
            fhd == h1 * l1,
            l1 > 0,
            x1 > 0,
            h1 > 0,
            nx >= 0,
            dh > 0,
            nx == ix * fxd + fxn,
            dh == ihh * fhd + fhn,
            round_half_away(nx * h1 * FULL_SCALE, x1 * dh) >= lo,
            round_half_away(nx * h1 * FULL_SCALE, x1 * dh) < hi,
        decreases hi - lo,
    {
        let mid = lo + (hi - lo) / 2;
        proof {
            lemma_score_step(nx, dh, x1, l1, h1, mid as int);
        }
        if score_at_least(ix, fxn, fxd, ihh, fhn, fhd, mid) {
            lo = mid;
        } else {
            hi = mid;
        }
    }
    lo
}

/// `a / b` for positive `a` and `b`: its integer part and remainder.
fn split(a: i128, b: i128) -> (r: (i128, i128))
    requires
        a > 0,
        b > 0,
    ensures
        a == b * r.0 + r.1,
        0 <= r.1 < b,
        0 <= r.0 <= a,
{
    let q = (a as u128 / b as u128) as i128;
    let m = (a as u128 % b as u128) as i128;
    proof {
        vstd::arithmetic::div_mod::lemma_fundamental_div_mod(a as int, b as int);
        vstd::arithmetic::div_mod::lemma_mod_bound(a as int, b as int);
        assert(q * b <= a) by (nonlinear_arith)
            requires
                a == b * q + m,
                m >= 0,
        ;
        assert(q <= a) by (nonlinear_arith)
            requires
                q * b <= a,
                b >= 1,
                a > 0,
        ;
    }
    (q, m)
}

proof fn lemma_part_bounds(r: int, d: int, e: int)
    requires
        0 <= r < d,
        0 < d <= DEN_LIMIT,
        0 < e <= DEN_LIMIT,
    ensures
        0 <= r * e < d * e,
        d * e <= DEN_LIMIT * DEN_LIMIT,
{
    assert(0 <= r * e < d * e) by (nonlinear_arith)
        requires
            0 <= r < d,
            e > 0,
    ;
    assert(d * e <= DEN_LIMIT * DEN_LIMIT) by (nonlinear_arith)
        requires
            0 < d <= DEN_LIMIT,
            0 < e <= DEN_LIMIT,
    ;
}

/// `x0 / x1 - l0 / l1`, scaled by `x1 * l1`, from the integer parts and remainders.
proof fn lemma_split_difference(
    x0: int,
    x1: int,
    l0: int,
    l1: int,
    ia: int,
    ra: int,
    ip: int,
    rp: int,
)
    requires
        x0 == x1 * ia + ra,
        l0 == l1 * ip + rp,
    ensures
        x0 * l1 - l0 * x1 == (ia - ip) * (x1 * l1) + (ra * l1 - rp * x1),
{
    assert(x0 * l1 - l0 * x1 == (ia - ip) * (x1 * l1) + (ra * l1 - rp * x1)) by (nonlinear_arith)
        requires
            x0 == x1 * ia + ra,
            l0 == l1 * ip + rp,
    ;
}

/// The score is at least `k` exactly when `20000 * nx * fhd >= (2k - 1) * dh * fxd`.
proof fn lemma_score_step(nx: int, dh: int, x1: int, l1: int, h1: int, k: int)
    requires
        nx >= 0,
        dh > 0,
        x1 > 0,
        l1 > 0,
        h1 > 0,
        k >= 1,
    ensures
        (round_half_away(nx * h1 * FULL_SCALE, x1 * dh) >= k) == (2 * FULL_SCALE * nx * (h1 * l1)
            >= (2 * k - 1) * dh * (x1 * l1)),
{
    assert(nx * h1 * FULL_SCALE >= 0) by (nonlinear_arith)
        requires
            nx >= 0,
            h1 > 0,
    ;
    assert(x1 * dh > 0) by (nonlinear_arith)
        requires
            x1 > 0,
            dh > 0,
    ;
    lemma_round_at_least(nx * h1 * FULL_SCALE, x1 * dh, k);
    let a = 2 * (nx * h1 * FULL_SCALE);
    let b = (2 * k - 1) * (x1 * dh);
    assert(a * l1 == 2 * FULL_SCALE * nx * (h1 * l1)) by (nonlinear_arith)
        requires
            a == 2 * (nx * h1 * FULL_SCALE),
    ;
    assert(b * l1 == (2 * k - 1) * dh * (x1 * l1)) by (nonlinear_arith)
        requires
            b == (2 * k - 1) * (x1 * dh),
    ;
    assert((a >= b) == (a * l1 >= b * l1)) by (nonlinear_arith)
        requires
            l1 > 0,
    ;
}

/// Whether `20000 * (ix * fxd + fxn) * fhd >= (2k - 1) * (ihh * fhd + fhn) * fxd`, where the
/// fractional parts `fxn / fxd` and `fhn / fhd` lie strictly between -1 and 1.
fn score_at_least(ix: i128, fxn: i128, fxd: i128, ihh: i128, fhn: i128, fhd: i128, k: i128) -> (r:
    bool)
    requires
        1 <= k <= FULL_SCALE,
        -0x2_0000_0000_0000_0000_0000 <= ix <= 0x2_0000_0000_0000_0000_0000,
        -0x2_0000_0000_0000_0000_0000 <= ihh <= 0x2_0000_0000_0000_0000_0000,
        0 < fxd <= DEN_LIMIT * DEN_LIMIT,
        0 < fhd <= DEN_LIMIT * DEN_LIMIT,
        -fxd < fxn < fxd,
        -fhd < fhn < fhd,
    ensures
        r == (2 * FULL_SCALE * (ix * fxd + fxn) * fhd >= (2 * k - 1) * (ihh * fhd + fhn) * fxd),
{
    let c = 2 * k - 1;
    assert(-0x2_0000_0000_0000_0000_0000_0000 <= c * ihh <= 0x2_0000_0000_0000_0000_0000_0000) by (nonlinear_arith)
        requires
            1 <= c < 2 * FULL_SCALE,
            -0x2_0000_0000_0000_0000_0000 <= ihh <= 0x2_0000_0000_0000_0000_0000,
    ;
    let j = 2 * FULL_SCALE * ix - c * ihh;
    let ghost (ixi, ihi, jx, xd, xn, hd, hn, ci) = (
        ix as int,
        ihh as int,
        j as int,
        fxd as int,
        fxn as int,
        fhd as int,
        fhn as int,
        c as int,
    );
    let ghost e = 2 * FULL_SCALE * (ix * fxd + fxn) * fhd - (2 * k - 1) * (ihh * fhd + fhn) * fxd;
    let ghost left_term = 2 * FULL_SCALE * (ixi * xd + xn) * hd;
    let ghost right_term = ci * (ihi * hd + hn) * xd;
    assert(left_term == 2 * FULL_SCALE * ixi * (xd * hd) + 2 * FULL_SCALE * xn * hd) by (nonlinear_arith)
        requires
            left_term == 2 * FULL_SCALE * (ixi * xd + xn) * hd,
    ;
    assert(right_term == ci * ihi * (xd * hd) + ci * hn * xd) by (nonlinear_arith)
        requires
            right_term == ci * (ihi * hd + hn) * xd,
    ;
    assert(jx * (xd * hd) == 2 * FULL_SCALE * ixi * (xd * hd) - ci * ihi * (xd * hd)) by (nonlinear_arith)
        requires
            jx == 2 * FULL_SCALE * ixi - ci * ihi,
    ;
    assert(e == left_term - right_term);
    assert(e == jx * (xd * hd) + 2 * FULL_SCALE * xn * hd - ci * hn * xd);
    assert(2 * FULL_SCALE * xn * hd > -(2 * FULL_SCALE) * (xd * hd)) by (nonlinear_arith)
        requires
            xn > -xd,
            hd > 0,
    ;
    assert(ci * hn * xd < 2 * FULL_SCALE * (xd * hd) && ci * hn * xd > -(2 * FULL_SCALE) * (xd * hd))
        by (nonlinear_arith)
        requires
            1 <= ci < 2 * FULL_SCALE,
            -hd < hn < hd,
            xd > 0,
    ;
    if j >= 4 * FULL_SCALE {
        assert(jx * (xd * hd) >= 4 * FULL_SCALE * (xd * hd)) by (nonlinear_arith)
            requires
                jx >= 4 * FULL_SCALE,
                xd > 0,
                hd > 0,
        ;
        return true;
    }
    if j <= -4 * FULL_SCALE {
        assert(jx * (xd * hd) <= -4 * FULL_SCALE * (xd * hd)) by (nonlinear_arith)
            requires
                jx <= -4 * FULL_SCALE,
                xd > 0,
                hd > 0,
        ;
        assert(2 * FULL_SCALE * xn * hd < (2 * FULL_SCALE) * (xd * hd)) by (nonlinear_arith)
            requires
                xn < xd,
                hd > 0,
        ;
        return false;
    }
    assert(-(4 * FULL_SCALE) * DEN_LIMIT * DEN_LIMIT <= jx * xd <= (4 * FULL_SCALE) * DEN_LIMIT * DEN_LIMIT)
        by (nonlinear_arith)
        requires
            -4 * FULL_SCALE < jx < 4 * FULL_SCALE,
            0 < xd <= DEN_LIMIT * DEN_LIMIT,
    ;
    assert(-(2 * FULL_SCALE) * DEN_LIMIT * DEN_LIMIT <= 2 * FULL_SCALE * xn <= (2 * FULL_SCALE) * DEN_LIMIT * DEN_LIMIT)
        by (nonlinear_arith)
        requires
            -xd < xn < xd,
            xd <= DEN_LIMIT * DEN_LIMIT,
    ;
    assert(-(2 * FULL_SCALE) * DEN_LIMIT * DEN_LIMIT <= ci * hn <= (2 * FULL_SCALE) * DEN_LIMIT * DEN_LIMIT)
        by (nonlinear_arith)
        requires
            1 <= ci < 2 * FULL_SCALE,
            -hd < hn < hd,
            hd <= DEN_LIMIT * DEN_LIMIT,
    ;
    let left = j * fxd + 2 * FULL_SCALE * fxn;
    let right = c * fhn;
    assert(DEN_LIMIT * DEN_LIMIT == 0x100_0000_0000_0000_0000_0000_0000);
    assert(-FRAC_LIMIT < left < FRAC_LIMIT);
    assert(-FRAC_LIMIT < right < FRAC_LIMIT);
    assert(left as int * hd - right as int * xd == e) by (nonlinear_arith)
        requires
            left == jx * xd + 2 * FULL_SCALE * xn,
            right == ci * hn,
            e == jx * (xd * hd) + 2 * FULL_SCALE * xn * hd - ci * hn * xd,
    ;
    frac_ge(left, fxd, right, fhd)
}

} // verus!
