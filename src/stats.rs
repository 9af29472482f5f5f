//! Exact statistics on integers: rounding to a unit, means and the median.
use vstd::prelude::*;
use vstd::relations::{sorted_by, total_ordering};
use vstd::seq_lib::*;

verus! {

/// `n / d` rounded to the nearest integer, halves away from zero.
pub open spec fn round_half_away(n: int, d: int) -> int
    recommends
        d > 0,
{
    if n >= 0 {
        (2 * n + d) / (2 * d)
    } else {
        -((-2 * n + d) / (2 * d))
    }
}

/// Largest magnitude `round_div` takes for its numerator.
pub const ROUND_LIMIT: i128 = 0x1000_0000_0000_0000_0000_0000_0000_0000;

/// `n / d` rounded to the nearest integer, halves away from zero.
pub fn round_div(n: i128, d: i128) -> (r: i128)
    requires
        0 < d < ROUND_LIMIT,
        -ROUND_LIMIT < n < ROUND_LIMIT,
    ensures
        r == round_half_away(n as int, d as int),
{
    assert(ROUND_LIMIT == 0x1000_0000_0000_0000_0000_0000_0000_0000);
    if n >= 0 {
        (2 * n + d) / (2 * d)
    } else {
        let m: i128 = 0 - n;
        let q: i128 = (2 * m + d) / (2 * d);
        assert(q >= 0);
        0 - q
    }
}

/// The ascending order on `i64`.
pub open spec fn ascending() -> spec_fn(i64, i64) -> bool {
    |a: i64, b: i64| a <= b
}

/// Twice the median of `s`: the middle value of `s` sorted ascending, or the sum of the two
/// middle values when the length is even; 0 for an empty sequence.
pub open spec fn median_twice(s: Seq<i64>) -> int {
    middle_twice(s.sort_by(ascending()))
}

/// Twice the middle value of `t`, or the sum of its two middle values when its length is
/// even; 0 when it is empty.
pub open spec fn middle_twice(t: Seq<i64>) -> int {
    let n = t.len() as int;
    if n == 0 {
        0
    } else if n % 2 == 1 {
        2 * t[n / 2]
    } else {
        t[n / 2 - 1] + t[n / 2]
    }
}

proof fn lemma_ascending_total()
    ensures
        total_ordering(ascending()),
{
}

/// The median does not depend on the order of the values: two sequences holding the same
/// values, each as often, have the same median.
pub proof fn lemma_median_order_invariant(a: Seq<i64>, b: Seq<i64>)
    requires
        a.to_multiset() == b.to_multiset(),
    ensures
        median_twice(a) == median_twice(b),
{
    lemma_ascending_total();
    a.lemma_sort_by_ensures(ascending());
    b.lemma_sort_by_ensures(ascending());
    lemma_sorted_unique(a.sort_by(ascending()), b.sort_by(ascending()), ascending());
}

/// The values of `v` in ascending order (a stable insertion sort).
pub fn sort_ascending(v: &Vec<i64>) -> (r: Vec<i64>)
    ensures
        sorted_by(r@, ascending()),
        r@.to_multiset() == v@.to_multiset(),
        r@ == v@.sort_by(ascending()),
{
    broadcast use group_to_multiset_ensures;

    let mut r: Vec<i64> = Vec::new();
    let mut i: usize = 0;
    while i < v.len()
        invariant
            i <= v@.len(),
            sorted_by(r@, ascending()),
            r@.to_multiset() == v@.subrange(0, i as int).to_multiset(),
        decreases v@.len() - i,
    {
        let x = v[i];
        let mut p: usize = 0;
        while p < r.len() && r[p] <= x
            invariant
                p <= r@.len(),
                forall|j: int| 0 <= j < p ==> r@[j] <= x,
            decreases r@.len() - p,
        {
            p = p + 1;
        }
        let ghost before = r@;
        r.insert(p, x);
        proof {
            to_multiset_insert(before, p as int, x);
            assert(v@.subrange(0, i + 1) =~= v@.subrange(0, i as int).push(x));
            to_multiset_build(v@.subrange(0, i as int), x);
            assert forall|a: int, b: int| 0 <= a < b < r@.len() implies #[trigger] (ascending())(
                r@[a],
                r@[b],
            ) by {
                if b < p {
                    assert(r@[a] == before[a] && r@[b] == before[b]);
                } else if b == p {
                    assert(r@[a] == before[a]);
                } else if a == p {
                    assert(r@[b] == before[b - 1]);
                    if p < before.len() {
                        assert((ascending())(before[p as int], before[b - 1]));
                    }
                } else if a < p {
                    assert(r@[a] == before[a] && r@[b] == before[b - 1]);
                } else {
                    assert(r@[a] == before[a - 1] && r@[b] == before[b - 1]);
                }
            }
        }
        i = i + 1;
    }
    proof {
        assert(v@.subrange(0, v@.len() as int) =~= v@);
        lemma_ascending_total();
        v@.lemma_sort_by_ensures(ascending());
        lemma_sorted_unique(r@, v@.sort_by(ascending()), ascending());
    }
    r
}

/// Twice the median of the values, reading them without reordering them.
pub fn median_of(values: &Vec<i64>) -> (r: i128)
    ensures
        r == median_twice(values@),
{
    let sorted = sort_ascending(values);
    middle_of(&sorted)
}

/// Twice the middle value (or the sum of the two middle values) of a sequence.
fn middle_of(t: &Vec<i64>) -> (r: i128)
    ensures
        r == middle_twice(t@),
{
    let n = t.len();
    if n == 0 {
        0
    } else if n % 2 == 1 {
        2 * t[n / 2] as i128
    } else {
        t[n / 2 - 1] as i128 + t[n / 2] as i128
    }
}

/// The median lies within any bound on the values.
pub proof fn lemma_median_bound(s: Seq<i64>, b: int)
    requires
        b >= 0,
        forall|i: int| 0 <= i < s.len() ==> -b <= #[trigger] s[i] <= b,
    ensures
        -2 * b <= median_twice(s) <= 2 * b,
{
    s.lemma_sort_by_ensures(ascending());
    let t = s.sort_by(ascending());
    assert(t.len() == s.len()) by {
        assert(t.to_multiset().len() == s.to_multiset().len());
        to_multiset_len(t);
        to_multiset_len(s);
    }
    assert forall|k: int| 0 <= k < t.len() implies -b <= #[trigger] t[k] <= b by {
        assert(t.contains(t[k]));
        assert(s.contains(t[k]));
    }
    if t.len() > 0 {
        let n = t.len() as int;
        assert(0 <= n / 2 < n);
        assert(-b <= t[n / 2] <= b);
        if n % 2 == 0 {
            assert(0 <= n / 2 - 1);
            assert(-b <= t[n / 2 - 1] <= b);
            assert(median_twice(s) == t[n / 2 - 1] + t[n / 2]);
        } else {
            assert(median_twice(s) == 2 * t[n / 2]);
        }
    }
}

/// Whether `p1 * q2 >= p2 * q1`, decided without forming either product: the fractions
/// `p1 / q1` and `p2 / q2` are compared by their integer parts, then by their remainders
/// with the fractions turned over.
pub fn cross_ge(p1: u128, q1: u128, p2: u128, q2: u128) -> (r: bool)
    requires
        q1 > 0,
        q2 > 0,
    ensures
        r == (p1 as int * q2 as int >= p2 as int * q1 as int),
    decreases q1 + q2,
{
    let a1 = p1 / q1;
    let r1 = p1 % q1;
    let a2 = p2 / q2;
    let r2 = p2 % q2;
    let ghost (p1i, q1i, p2i, q2i) = (p1 as int, q1 as int, p2 as int, q2 as int);
    let ghost (a1i, r1i, a2i, r2i) = (a1 as int, r1 as int, a2 as int, r2 as int);
    assert(p1i == q1i * a1i + r1i && 0 <= r1i < q1i) by {
        vstd::arithmetic::div_mod::lemma_fundamental_div_mod(p1i, q1i);
        vstd::arithmetic::div_mod::lemma_mod_bound(p1i, q1i);
    }
    assert(p2i == q2i * a2i + r2i && 0 <= r2i < q2i) by {
        vstd::arithmetic::div_mod::lemma_fundamental_div_mod(p2i, q2i);
        vstd::arithmetic::div_mod::lemma_mod_bound(p2i, q2i);
    }
    assert(p1i * q2i - p2i * q1i == (a1i - a2i) * q1i * q2i + r1i * q2i - r2i * q1i)
        by (nonlinear_arith)
        requires
            p1i == q1i * a1i + r1i,
            p2i == q2i * a2i + r2i,
    ;
    if a1 != a2 {
        if a1 > a2 {
            assert((a1i - a2i) * q1i * q2i + r1i * q2i - r2i * q1i > 0) by (nonlinear_arith)
                requires
                    a1i - a2i >= 1,
                    0 <= r1i,
                    0 <= r2i < q2i,
                    q1i > 0,
                    q2i > 0,
            ;
        } else {
            assert((a1i - a2i) * q1i * q2i + r1i * q2i - r2i * q1i < 0) by (nonlinear_arith)
                requires
                    a1i - a2i <= -1,
                    0 <= r1i < q1i,
                    0 <= r2i,
                    q1i > 0,
                    q2i > 0,
            ;
        }
        return a1 > a2;
    }
    assert((a1i - a2i) * q1i * q2i == 0) by (nonlinear_arith)
        requires
            a1i == a2i,
    ;
    if r2 == 0 {
        assert(r1i * q2i >= 0) by (nonlinear_arith)
            requires
                r1i >= 0,
                q2i > 0,
        ;
        return true;
    }
    if r1 == 0 {
        assert(r2i * q1i > 0) by (nonlinear_arith)
            requires
                r2i > 0,
                q1i > 0,
        ;
        return false;
    }
    assert(r1i * q2i == q2i * r1i && r2i * q1i == q1i * r2i) by (nonlinear_arith);
    cross_ge(q2, r2, q1, r1)
}

/// Largest magnitude of a numerator that `frac_ge` takes (2^126).
pub const FRAC_LIMIT: i128 = 0x4000_0000_0000_0000_0000_0000_0000_0000;

/// Whether `a / b >= c / d` for signed numerators and positive denominators, that is
/// `a * d >= c * b`, decided without forming either product.
pub fn frac_ge(a: i128, b: i128, c: i128, d: i128) -> (r: bool)
    requires
        b > 0,
        d > 0,
        -FRAC_LIMIT < a < FRAC_LIMIT,
        -FRAC_LIMIT < c < FRAC_LIMIT,
    ensures
        r == (a as int * d as int >= c as int * b as int),
{
    let ghost (ai, bi, ci, di) = (a as int, b as int, c as int, d as int);
    if a >= 0 && c < 0 {
        assert(ai * di >= 0 && ci * bi < 0) by (nonlinear_arith)
            requires
                ai >= 0,
                ci < 0,
                bi > 0,
                di > 0,
        ;
        true
    } else if a < 0 && c >= 0 {
        assert(ai * di < 0 && ci * bi >= 0) by (nonlinear_arith)
            requires
                ai < 0,
                ci >= 0,
                bi > 0,
                di > 0,
        ;
        false
    } else if a >= 0 {
        cross_ge(a as u128, b as u128, c as u128, d as u128)
    } else {
        let r = cross_ge((0 - c) as u128, d as u128, (0 - a) as u128, b as u128);
        assert((-ci) * bi == -(ci * bi) && (-ai) * di == -(ai * di)) by (nonlinear_arith);
        r
    }
}

/// `round_half_away(a * b, c * e)` limited to `0..=top`, for positive `a`, `b`, `c`, `e`,
/// found by bisection with `cross_ge`, so no product is formed.
pub fn round_product_ratio(a: u128, b: u128, c: u128, e: u128, top: u128) -> (r: u128)
    requires
        a > 0,
        b > 0,
        c > 0,
        e > 0,
        1 <= top <= 0x1_0000,
        a <= 0x1_0000_0000_0000_0000_0000_0000,
        e <= 0x1_0000_0000_0000_0000_0000_0000,
    ensures
        r == if round_half_away(a * b, c * e) > top {
            top as int
        } else {
            round_half_away(a * b, c * e)
        },
{
    let ghost p = a as int * b as int;
    let ghost q = c as int * e as int;
    assert(q > 0) by (nonlinear_arith)
        requires
            c > 0,
            e > 0,
            q == c as int * e as int,
    ;
    assert(p >= 0) by (nonlinear_arith)
        requires
            p == a as int * b as int,
            a > 0,
            b > 0,
    ;
    // round_half_away(p, q) >= k  <==>  2p >= (2k - 1) q  <==>  cross_ge(2a, (2k - 1) e, c, b)
    proof {
        lemma_odd_multiple_bound(top as int, e as int);
    }
    if cross_ge(2 * a, (2 * top - 1) * e, c, b) {
        proof {
            lemma_round_at_least(p, q, top as int);
            lemma_bisect_terms(a as int, b as int, c as int, e as int, top as int, p, q);
        }
        return top;
    }
    proof {
        lemma_round_at_least(p, q, top as int);
        lemma_bisect_terms(a as int, b as int, c as int, e as int, top as int, p, q);
        lemma_round_at_least(p, q, 0);
    }
    let mut lo: u128 = 0;
    let mut hi: u128 = top;
    while hi - lo > 1
        invariant
            lo < hi <= top <= 0x1_0000,
            a <= 0x1_0000_0000_0000_0000_0000_0000,
            e <= 0x1_0000_0000_0000_0000_0000_0000,
            c > 0,
            b > 0,
            p == a as int * b as int,
            q == c as int * e as int,
            q > 0,
            p >= 0,
            round_half_away(p, q) >= lo,
            round_half_away(p, q) < hi,
        decreases hi - lo,
    {
        let mid = lo + (hi - lo) / 2;
        proof {
            lemma_odd_multiple_bound(mid as int, e as int);
        }
        let ge = cross_ge(2 * a, (2 * mid - 1) * e, c, b);
        proof {
            lemma_round_at_least(p, q, mid as int);
            lemma_bisect_terms(a as int, b as int, c as int, e as int, mid as int, p, q);
        }
        if ge {
            lo = mid;
        } else {
            hi = mid;
        }
    }
    lo
}

/// The two sides that `cross_ge(2a, (2k - 1) e, c, b)` compares are `2p` and `(2k - 1) q`.
proof fn lemma_bisect_terms(a: int, b: int, c: int, e: int, k: int, p: int, q: int)
    requires
        p == a * b,
        q == c * e,
    ensures
        (2 * a) * b == 2 * p,
        c * ((2 * k - 1) * e) == (2 * k - 1) * q,
{
    assert((2 * a) * b == 2 * p) by (nonlinear_arith)
        requires
            p == a * b,
    ;
    assert(c * ((2 * k - 1) * e) == (2 * k - 1) * q) by (nonlinear_arith)
        requires
            q == c * e,
    ;
}

proof fn lemma_odd_multiple_bound(k: int, e: int)
    requires
        1 <= k <= 0x1_0000,
        1 <= e <= 0x1_0000_0000_0000_0000_0000_0000,
    ensures
        1 <= (2 * k - 1) * e <= 0x2_0000 * 0x1_0000_0000_0000_0000_0000_0000,
{
    assert(1 <= (2 * k - 1) * e <= 0x2_0000 * 0x1_0000_0000_0000_0000_0000_0000) by (nonlinear_arith)
        requires
            1 <= k <= 0x1_0000,
            1 <= e <= 0x1_0000_0000_0000_0000_0000_0000,
    ;
}

/// For `p >= 0` and `q > 0`, `p / q` rounds to at least `k >= 1` exactly when
/// `2p >= (2k - 1) q`.
pub proof fn lemma_round_at_least(p: int, q: int, k: int)
    requires
        p >= 0,
        q > 0,
    ensures
        k >= 1 ==> (round_half_away(p, q) >= k <==> 2 * p >= (2 * k - 1) * q),
        round_half_away(p, q) >= 0,
{
    let x = 2 * p + q;
    let y = 2 * q;
    vstd::arithmetic::div_mod::lemma_fundamental_div_mod(x, y);
    vstd::arithmetic::div_mod::lemma_mod_bound(x, y);
    let f = x / y;
    assert(f >= 0) by (nonlinear_arith)
        requires
            x == y * f + x % y,
            0 <= x % y < y,
            x >= 0,
    ;
    if k >= 1 {
        assert(f >= k <==> 2 * p >= (2 * k - 1) * q) by (nonlinear_arith)
            requires
                x == y * f + x % y,
                0 <= x % y < y,
                x == 2 * p + q,
                y == 2 * q,
                q > 0,
        ;
    }
}

/// Twice the median of the values (so that the mean of two middle values stays exact);
/// 0 when there are none. The values are left sorted ascending.
pub fn median(values: &mut Vec<i64>) -> (r: i128)
    ensures
        r == median_twice(old(values)@),
        final(values)@ == old(values)@.sort_by(ascending()),
{
    let sorted = sort_ascending(values);
    let r = middle_of(&sorted);
    *values = sorted;
    r
}

} // verus!
