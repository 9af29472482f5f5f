//! The report builders: regional efficiency, top contractors, annual trends and the
//! dataset-wide summary. Amounts are in centavos; averages, shares and scores in hundredths.
use vstd::prelude::*;
use crate::aggregate::{
    GroupAcc, Group, KeyKind, MAX_DELAY, MAX_ROWS, Tally, bounded, group_projects, key_of, tally,
    lemma_tally_absent, lemma_tally_member, same_key, GroupKey,
};
use crate::model::Project;
use crate::normalize::{
    DEN_LIMIT, FULL_SCALE, NUM_LIMIT, as_ints, as_ratios, is_positive_max, is_positive_min,
    normalize_ratios, normalizes, ratio_le,
};
use crate::order::{Rank, hits, in_rank_order, rank_before, rearranges, sort_by_rank, without_ranks};
use crate::parse::MAX_SCALED;
use crate::stats::{cross_ge, round_product_ratio, lemma_median_bound, median_of, median_twice, round_div, round_half_away};

verus! {

/// Mean of `count` values summing to `total`, in hundredths; 0 when there are none.
pub open spec fn mean_hundredths(total: int, count: int) -> int {
    if count <= 0 {
        0
    } else {
        round_half_away(total * 100, count)
    }
}

/// `part` out of `count` as a percentage in hundredths; 0 when `count` is 0.
pub open spec fn share_hundredths(part: int, count: int) -> int {
    if count <= 0 {
        0
    } else {
        round_half_away(part * FULL_SCALE, count)
    }
}

/// Raw efficiency, exactly, as a fraction `(numerator, denominator)` in hundredths: median
/// savings (pesos) over average delay (days), times 100; 0 when there is no delay or the
/// average delay is 0. With `m2` twice the median in centavos, `n` delays totalling `d`
/// days, it is `(m2 / 200) / (d / n) * 100 * 100 = 50 * m2 * n / d`.
pub open spec fn efficiency_raw(t: Tally) -> (int, int) {
    if t.delay_count > 0 && t.delay_total > 0 {
        (median_twice(t.savings) * t.delay_count * 50, t.delay_total)
    } else if t.delay_count > 0 && t.delay_total < 0 {
        (-(median_twice(t.savings) * t.delay_count * 50), -t.delay_total)
    } else {
        (0, 1)
    }
}

/// One line of the regional efficiency report.
pub struct RegionRow {
    pub region: String,
    pub main_island: String,
    /// Sum of the present approved budgets, in centavos.
    pub total_budget: i128,
    /// Median of the present cost savings, in centavos.
    pub median_savings: i128,
    /// Mean of the present delays, in hundredths of a day.
    pub avg_delay: i128,
    /// Share of present delays above the threshold, in hundredths of a percent.
    pub high_delay_pct: i128,
    /// Normalized efficiency, in hundredths (0..=10000).
    pub efficiency_score: i128,
}

/// The tally of the projects of `ps` in the row's region and main island.
pub open spec fn region_tally(ps: Seq<Project>, row: RegionRow) -> Tally {
    tally(ps, KeyKind::RegionIsland, (0, row.region@, row.main_island@))
}

/// The row's figures are those of the tally.
pub open spec fn region_stats_ok(row: RegionRow, t: Tally) -> bool {
    &&& row.total_budget == t.budget_total
    &&& row.median_savings == round_half_away(median_twice(t.savings), 2)
    &&& row.avg_delay == mean_hundredths(t.delay_total, t.delay_count)
    &&& row.high_delay_pct == share_hundredths(t.high_delays, t.delay_count)
}

pub open spec fn region_raws(ps: Seq<Project>, rows: Seq<RegionRow>) -> Seq<(int, int)> {
    rows.map_values(|r: RegionRow| efficiency_raw(region_tally(ps, r)))
}

pub open spec fn region_scores(rows: Seq<RegionRow>) -> Seq<int> {
    rows.map_values(|r: RegionRow| r.efficiency_score as int)
}

/// The projects are all well formed and few enough for exact arithmetic.
pub open spec fn reportable(ps: Seq<Project>) -> bool {
    &&& ps.len() <= MAX_ROWS
    &&& forall|i: int| 0 <= i < ps.len() ==> (#[trigger] ps[i]).wf()
}

/// Normalization survives a rearrangement of the scores.
pub proof fn lemma_normalizes_rearranged(
    r0: Seq<int>,
    s0: Seq<(int, int)>,
    r1: Seq<int>,
    s1: Seq<(int, int)>,
    perm: Seq<int>,
)
    requires
        normalizes(r0, s0),
        r1.len() == s1.len() == perm.len() == s0.len(),
        forall|i: int| 0 <= i < perm.len() ==> 0 <= #[trigger] perm[i] < s0.len(),
        forall|i: int| 0 <= i < perm.len() ==> r1[i] == r0[#[trigger] perm[i]],
        forall|i: int| 0 <= i < perm.len() ==> s1[i] == s0[#[trigger] perm[i]],
        forall|j: int| 0 <= j < s0.len() ==> #[trigger] hits(perm, j),
    ensures
        normalizes(r1, s1),
{
    if forall|i: int| 0 <= i < s0.len() ==> s0[i].0 <= 0 {
        assert forall|i: int| 0 <= i < s1.len() implies s1[i].0 <= 0 by {
            assert(s1[i] == s0[perm[i]]);
        }
        assert forall|i: int| 0 <= i < r1.len() implies r1[i] == 0 by {
            assert(r1[i] == r0[perm[i]]);
        }
    } else {
        let (lo, hi) = choose|lo: (int, int), hi: (int, int)|
            is_positive_min(s0, lo) && is_positive_max(s0, hi) && forall|i: int|
                0 <= i < r0.len() ==> #[trigger] r0[i] == crate::normalize::scaled(s0[i], lo, hi);
        let a = choose|i: int| 0 <= i < s0.len() && s0[i] == lo;
        let b = choose|i: int| 0 <= i < s0.len() && s0[i] == hi;
        assert(hits(perm, a));
        assert(hits(perm, b));
        let a1 = choose|i: int| 0 <= i < perm.len() && perm[i] == a;
        let b1 = choose|i: int| 0 <= i < perm.len() && perm[i] == b;
        assert(s1[a1] == lo);
        assert(s1[b1] == hi);
        assert forall|j: int| 0 <= j < s1.len() && s1[j].0 > 0 implies ratio_le(lo, #[trigger] s1[j]) by {
            assert(s1[j] == s0[perm[j]]);
        }
        assert forall|j: int| 0 <= j < s1.len() && s1[j].0 > 0 implies ratio_le(#[trigger] s1[j], hi) by {
            assert(s1[j] == s0[perm[j]]);
        }
        assert(is_positive_min(s1, lo));
        assert(is_positive_max(s1, hi));
        assert forall|i: int| 0 <= i < r1.len() implies #[trigger] r1[i]
            == crate::normalize::scaled(s1[i], lo, hi) by {
            assert(r1[i] == r0[perm[i]]);
            assert(s1[i] == s0[perm[i]]);
        }
    }
}

/// The raw efficiency of one group.
fn region_raw(acc: &GroupAcc) -> (r: (i128, i128))
    requires
        bounded(acc@),
    ensures
        (r.0 as int, r.1 as int) == efficiency_raw(acc@),
        0 < r.1 <= DEN_LIMIT,
        -NUM_LIMIT <= r.0 <= NUM_LIMIT,
{
    if acc.delay_count > 0 && acc.delay_total != 0 {
        let m2 = median_of(&acc.savings);
        proof {
            lemma_median_bound(acc@.savings, 2 * MAX_SCALED);
        }
        let c = acc.delay_count as i128;
        assert(-(4 * MAX_SCALED) * MAX_ROWS * 50 <= m2 * c * 50 <= (4 * MAX_SCALED) * MAX_ROWS * 50)
            by (nonlinear_arith)
            requires
                -4 * MAX_SCALED <= m2 <= 4 * MAX_SCALED,
                0 <= c <= MAX_ROWS,
        ;
        assert(-acc.delay_count * MAX_DELAY <= acc.delay_total <= acc.delay_count * MAX_DELAY);
        assert(acc.delay_count * MAX_DELAY <= MAX_ROWS * MAX_DELAY) by (nonlinear_arith)
            requires
                0 <= acc.delay_count <= MAX_ROWS,
        ;
        let n = m2 * c * 50;
        if acc.delay_total > 0 {
            (n, acc.delay_total)
        } else {
            (0 - n, 0 - acc.delay_total)
        }
    } else {
        (0, 1)
    }
}

/// The mean, in hundredths, of `count` values summing to `total`.
fn mean_of(total: i128, count: u64) -> (r: i128)
    requires
        count <= MAX_ROWS,
        -(count as int) * MAX_DELAY * 2 * MAX_SCALED <= total <= (count as int) * MAX_DELAY * 2 * MAX_SCALED,
    ensures
        r == mean_hundredths(total as int, count as int),
{
    if count == 0 {
        0
    } else {
        assert(-(MAX_ROWS as int) * MAX_DELAY * 2 * MAX_SCALED <= total <= (MAX_ROWS as int) * MAX_DELAY * 2 * MAX_SCALED) by (nonlinear_arith)
            requires
                0 <= count <= MAX_ROWS,
                -(count as int) * MAX_DELAY * 2 * MAX_SCALED <= total <= (count as int) * MAX_DELAY * 2 * MAX_SCALED,
        ;
        round_div(total * 100, count as i128)
    }
}

/// The mean delay of a tally, in hundredths of a day.
pub(crate) fn mean_delay_of(acc: &GroupAcc) -> (r: i128)
    requires
        bounded(acc@),
    ensures
        r == mean_hundredths(acc@.delay_total, acc@.delay_count),
{
    proof {
        lemma_bounded_mean_args(acc@);
    }
    mean_of(acc.delay_total, acc.delay_count)
}

/// `part` out of `count`, in hundredths of a percent.
fn share_of(part: u64, count: u64) -> (r: i128)
    requires
        part <= count <= MAX_ROWS,
    ensures
        r == share_hundredths(part as int, count as int),
{
    if count == 0 {
        0
    } else {
        round_div(part as i128 * FULL_SCALE, count as i128)
    }
}

proof fn lemma_bounded_mean_args(t: Tally)
    requires
        bounded(t),
    ensures
        -(t.delay_count) * MAX_DELAY * 2 * MAX_SCALED <= t.delay_total <= t.delay_count * MAX_DELAY * 2 * MAX_SCALED,
        -(t.count) * MAX_DELAY * 2 * MAX_SCALED <= t.savings_total <= t.count * MAX_DELAY * 2 * MAX_SCALED,
{
    let dc = t.delay_count;
    let dt = t.delay_total;
    let n = t.count;
    let st = t.savings_total;
    assert(-dc * MAX_DELAY * 2 * MAX_SCALED <= dt <= dc * MAX_DELAY * 2 * MAX_SCALED) by (nonlinear_arith)
        requires
            dc >= 0,
            -dc * MAX_DELAY <= dt <= dc * MAX_DELAY,
    ;
    assert(-n * MAX_DELAY * 2 * MAX_SCALED <= st <= n * MAX_DELAY * 2 * MAX_SCALED) by (nonlinear_arith)
        requires
            n >= 0,
            -n * (2 * MAX_SCALED) <= st <= n * (2 * MAX_SCALED),
    ;
}

/// The report line of one group, with its normalized score.
fn region_row(grp: &Group, score: i128) -> (row: RegionRow)
    requires
        bounded(grp.acc@),
    ensures
        row.region@ == grp.key@.1,
        row.main_island@ == grp.key@.2,
        region_stats_ok(row, grp.acc@),
        row.efficiency_score == score,
{
    let acc = &grp.acc;
    let m2 = median_of(&acc.savings);
    proof {
        lemma_median_bound(acc@.savings, 2 * MAX_SCALED);
        lemma_bounded_mean_args(acc@);
    }
    RegionRow {
        region: grp.key.first.clone(),
        main_island: grp.key.second.clone(),
        total_budget: acc.budget_total,
        median_savings: round_div(m2, 2),
        avg_delay: mean_of(acc.delay_total, acc.delay_count),
        high_delay_pct: share_of(acc.high_delays, acc.delay_count),
        efficiency_score: score,
    }
}

/// Regional efficiency: one line per (region, main island) pair of the projects, with its
/// budget total, median savings, mean delay, share of long delays and normalized
/// efficiency, ordered by descending efficiency.
pub fn report_regional_efficiency(projects: &Vec<Project>) -> (rows: Vec<RegionRow>)
    requires
        reportable(projects@),
    ensures
        forall|i: int|
            0 <= i < rows@.len() ==> (#[trigger] region_tally(projects@, rows@[i])).count >= 1
                && region_stats_ok(rows@[i], region_tally(projects@, rows@[i])),
        normalizes(region_scores(rows@), region_raws(projects@, rows@)),
        forall|i: int, j: int|
            0 <= i < j < rows@.len() ==> (rows@[i].region@, rows@[i].main_island@) != (
                rows@[j].region@,
                rows@[j].main_island@,
            ),
        forall|k: int|
            0 <= k < projects@.len() ==> exists|i: int|
                0 <= i < rows@.len() && key_of(KeyKind::RegionIsland, #[trigger] projects@[k])
                    == Some((0int, rows@[i].region@, rows@[i].main_island@)),
        forall|i: int, j: int|
            0 <= i < j < rows@.len() ==> rows@[i].efficiency_score >= rows@[j].efficiency_score,
{
    let ghost ps = projects@;
    let groups = group_projects(projects, KeyKind::RegionIsland);
    let n = groups.len();
    let mut raws: Vec<(i128, i128)> = Vec::new();
    let mut g: usize = 0;
    while g < n
        invariant
            n == groups@.len(),
            g <= n,
            raws@.len() == g,
            forall|h: int| 0 <= h < n ==> bounded((#[trigger] groups@[h]).acc@),
            forall|h: int|
                0 <= h < g ==> ((#[trigger] raws@[h]).0 as int, raws@[h].1 as int) == efficiency_raw(
                    groups@[h].acc@,
                ),
            forall|h: int|
                0 <= h < g ==> 0 < (#[trigger] raws@[h]).1 <= DEN_LIMIT && -NUM_LIMIT <= raws@[h].0
                    <= NUM_LIMIT,
        decreases n - g,
    {
        let r = region_raw(&groups[g].acc);
        raws.push(r);
        g = g + 1;
    }
    let scores = normalize_ratios(&raws);
    let mut ranked: Vec<(Rank, RegionRow)> = Vec::new();
    let mut g: usize = 0;
    while g < n
        invariant
            n == groups@.len() == scores@.len(),
            g <= n,
            ranked@.len() == g,
            forall|h: int| 0 <= h < n ==> bounded((#[trigger] groups@[h]).acc@),
            forall|h: int| 0 <= h < n ==> 0 <= #[trigger] scores@[h] <= FULL_SCALE,
            forall|h: int|
                0 <= h < g ==> (#[trigger] ranked@[h]).1.region@ == groups@[h].key@.1
                    && ranked@[h].1.main_island@ == groups@[h].key@.2 && region_stats_ok(
                    ranked@[h].1,
                    groups@[h].acc@,
                ) && ranked@[h].1.efficiency_score == scores@[h] && ranked@[h].0@.0
                    == -scores@[h],
        decreases n - g,
    {
        let row = region_row(&groups[g], scores[g]);
        ranked.push((Rank { major: 0 - scores[g], minor: String::new() }, row));
        g = g + 1;
    }
    let ghost ranked0 = ranked@;
    let sorted = sort_by_rank(ranked);
    let ghost sorted0 = sorted@;
    let rows = without_ranks(sorted);
    proof {
        let perm = choose|perm: Seq<int>| rearranges(sorted0, ranked0, perm);
        assert forall|i: int| 0 <= i < rows@.len() implies groups@[#[trigger] perm[i]].key@ == (
            0int,
            rows@[i].region@,
            rows@[i].main_island@,
        ) && rows@[i] == ranked0[perm[i]].1 by {
            assert(rows@[i] == sorted0[i].1);
            assert(sorted0[i] == ranked0[perm[i]]);
            let k = groups@[perm[i]].key@;
            if groups@[perm[i]].acc@.count >= 1 {
                lemma_group_key_year(ps, k);
            }
        }
        assert forall|i: int| 0 <= i < rows@.len() implies (#[trigger] region_tally(
            ps,
            rows@[i],
        )).count >= 1 && region_stats_ok(rows@[i], region_tally(ps, rows@[i])) by {
            assert(groups@[perm[i]].key@ == (0int, rows@[i].region@, rows@[i].main_island@));
        }
        let rs = region_raws(ps, rows@);
        let sc = region_scores(rows@);
        assert forall|i: int| 0 <= i < perm.len() implies rs[i] == as_ratios(raws@)[#[trigger] perm[i]]
            && sc[i] == as_ints(scores@)[perm[i]] by {
            assert(groups@[perm[i]].key@ == (0int, rows@[i].region@, rows@[i].main_island@));
        }
        lemma_normalizes_rearranged(as_ints(scores@), as_ratios(raws@), sc, rs, perm);
        assert forall|i: int, j: int| 0 <= i < j < rows@.len() implies (
            rows@[i].region@,
            rows@[i].main_island@,
        ) != (rows@[j].region@, rows@[j].main_island@) by {
            assert(groups@[perm[i]].key@ == (0int, rows@[i].region@, rows@[i].main_island@));
            assert(groups@[perm[j]].key@ == (0int, rows@[j].region@, rows@[j].main_island@));
            if perm[i] < perm[j] {
            } else {
                assert(perm[i] != perm[j]);
            }
        }
        assert forall|k: int| 0 <= k < ps.len() implies exists|i: int|
            0 <= i < rows@.len() && key_of(KeyKind::RegionIsland, #[trigger] ps[k]) == Some(
                (0int, rows@[i].region@, rows@[i].main_island@),
            ) by {
            let h = choose|h: int|
                0 <= h < groups@.len() && key_of(KeyKind::RegionIsland, ps[k]) == Some(
                    groups@[h].key@,
                );
            assert(hits(perm, h));
            let i = choose|i: int| 0 <= i < perm.len() && perm[i] == h;
            assert(groups@[perm[i]].key@ == (0int, rows@[i].region@, rows@[i].main_island@));
        }
        assert forall|i: int, j: int| 0 <= i < j < rows@.len() implies rows@[i].efficiency_score
            >= rows@[j].efficiency_score by {
            assert(in_rank_order(sorted0));
            assert(!rank_before(sorted0[j].0@, sorted0[i].0@));
            assert(sorted0[i] == ranked0[perm[i]]);
            assert(sorted0[j] == ranked0[perm[j]]);
        }
    }
    rows
}

/// A group with members under the region grouping has year 0 in its key.
proof fn lemma_group_key_year(ps: Seq<Project>, k: (int, Seq<char>, Seq<char>))
    requires
        tally(ps, KeyKind::RegionIsland, k).count >= 1,
    ensures
        k.0 == 0,
    decreases ps.len(),
{
    if ps.len() > 0 && key_of(KeyKind::RegionIsland, ps.last()) != Some(k) {
        lemma_group_key_year(ps.drop_last(), k);
    }
}

/// Contractors with fewer projects than this are left out of the contractor report.
pub const MIN_CONTRACTOR_PROJECTS: u64 = 5;

/// Most lines of the contractor report.
pub const TOP_CONTRACTORS: usize = 15;

/// Reliability below this (in hundredths) flags a contractor as high risk.
pub const RISK_THRESHOLD: i128 = 5000;

/// `x` limited to `0..=FULL_SCALE`.
pub open spec fn clamp_scale(x: int) -> int {
    if x > FULL_SCALE {
        FULL_SCALE as int
    } else if x < 0 {
        0
    } else {
        x
    }
}

/// The number of delays the mean delay divides by; 1 when there are none (their total is
/// then 0, so the mean is 0).
pub open spec fn delay_weight(t: Tally) -> int {
    if t.delay_count > 0 {
        t.delay_count
    } else {
        1
    }
}

/// Numerator of the unrounded reliability in hundredths,
/// `(1 - mean_delay / 90) * (total_savings / total_cost) * 100 * 100`, with the exact mean.
pub open spec fn rel_num(t: Tally) -> int {
    (90 * delay_weight(t) - t.delay_total) * t.savings_total * FULL_SCALE
}

/// Denominator of the unrounded reliability in hundredths.
pub open spec fn rel_den(t: Tally) -> int {
    90 * delay_weight(t) * t.cost_total
}

/// Reliability in hundredths: the unrounded value rounded and limited to 0..=100; 0 when
/// the total cost is 0.
pub open spec fn reliability(t: Tally) -> int {
    if t.cost_total == 0 {
        0
    } else if rel_den(t) > 0 {
        clamp_scale(round_half_away(rel_num(t), rel_den(t)))
    } else {
        clamp_scale(round_half_away(-rel_num(t), -rel_den(t)))
    }
}

/// The unrounded reliability lies below the risk threshold (a zero total cost counts as 0).
pub open spec fn high_risk(t: Tally) -> bool {
    ||| t.cost_total == 0
    ||| rel_den(t) > 0 && rel_num(t) < RISK_THRESHOLD * rel_den(t)
    ||| rel_den(t) < 0 && -rel_num(t) < RISK_THRESHOLD * -rel_den(t)
}

/// The flag of a contractor: high risk below the threshold.
pub open spec fn risk_flag_of(t: Tally) -> Seq<char> {
    if high_risk(t) {
        "High Risk"@
    } else {
        "OK"@
    }
}

/// One line of the contractor report.
pub struct ContractorRow {
    pub contractor: String,
    pub num_projects: u64,
    /// Sum of the present contract costs, in centavos.
    pub total_cost: i128,
    /// Mean of the present delays, in hundredths of a day.
    pub avg_delay: i128,
    /// Sum of the present cost savings, in centavos.
    pub total_savings: i128,
    /// Reliability index, in hundredths (0..=10000).
    pub reliability_index: i128,
    pub risk_flag: String,
}

pub open spec fn contractor_key(name: Seq<char>) -> (int, Seq<char>, Seq<char>) {
    (0, name, Seq::empty())
}

/// The contractor key of a project.
pub open spec fn contractor_of(p: Project) -> (int, Seq<char>, Seq<char>) {
    contractor_key(crate::aggregate::name_or_unknown(p.contractor))
}

/// The contractors with at least `MIN_CONTRACTOR_PROJECTS` projects.
pub open spec fn eligible_contractors(ps: Seq<Project>) -> Set<(int, Seq<char>, Seq<char>)> {
    Set::new(
        |k: (int, Seq<char>, Seq<char>)|
            exists|j: int|
                0 <= j < ps.len() && contractor_of(#[trigger] ps[j]) == k && tally(
                    ps,
                    KeyKind::Contractor,
                    k,
                ).count >= MIN_CONTRACTOR_PROJECTS,
    )
}

/// The tally of the projects of `ps` by the row's contractor.
pub open spec fn contractor_tally(ps: Seq<Project>, row: ContractorRow) -> Tally {
    tally(ps, KeyKind::Contractor, contractor_key(row.contractor@))
}

/// The row's figures are those of the tally.
pub open spec fn contractor_stats_ok(row: ContractorRow, t: Tally) -> bool {
    &&& row.num_projects == t.count
    &&& row.total_cost == t.cost_total
    &&& row.avg_delay == mean_hundredths(t.delay_total, t.delay_count)
    &&& row.total_savings == t.savings_total
    &&& row.reliability_index == reliability(t)
    &&& row.risk_flag@ == risk_flag_of(t)
}

/// The reliability of one group, and whether it is high risk.
fn reliability_of(acc: &GroupAcc) -> (r: (i128, bool))
    requires
        bounded(acc@),
    ensures
        r.0 == reliability(acc@),
        r.1 == high_risk(acc@),
        0 <= r.0 <= FULL_SCALE,
{
    let ghost t = acc@;
    let c = acc.cost_total;
    if c == 0 {
        return (0, true);
    }
    let w: i128 = if acc.delay_count > 0 {
        acc.delay_count as i128
    } else {
        1
    };
    assert(w == delay_weight(t));
    assert(-(w as int) * MAX_DELAY <= acc.delay_total <= (w as int) * MAX_DELAY);
    assert(-(MAX_ROWS as int) * MAX_DELAY <= acc.delay_total <= (MAX_ROWS as int) * MAX_DELAY) by (nonlinear_arith)
        requires
            1 <= w <= MAX_ROWS,
            -(w as int) * MAX_DELAY <= acc.delay_total <= (w as int) * MAX_DELAY,
    ;
    let f: i128 = 90 * w - acc.delay_total;
    let s = acc.savings_total;
    let g: i128 = 90 * w;
    let ghost num = rel_num(t);
    let ghost den = rel_den(t);
    assert(num == f * s * FULL_SCALE);
    assert(den == g * c);
    assert(-(MAX_ROWS as int) * (2 * MAX_SCALED) <= s <= (MAX_ROWS as int) * (2 * MAX_SCALED)) by (nonlinear_arith)
        requires
            0 <= t.count <= MAX_ROWS,
            -t.count * (2 * MAX_SCALED) <= s <= t.count * (2 * MAX_SCALED),
    ;
    assert(-(MAX_ROWS as int) * MAX_SCALED <= c <= (MAX_ROWS as int) * MAX_SCALED) by (nonlinear_arith)
        requires
            0 <= t.count <= MAX_ROWS,
            -t.count * MAX_SCALED <= c <= t.count * MAX_SCALED,
    ;
    if f == 0 || s == 0 {
        assert(num == 0) by (nonlinear_arith)
            requires
                num == f * s * FULL_SCALE,
                f == 0 || s == 0,
        ;
        assert(den != 0) by (nonlinear_arith)
            requires
                den == g * c,
                g >= 90,
                c != 0,
        ;
        proof {
            if den > 0 {
                lemma_round_zero(den as int);
            } else {
                lemma_round_zero(-den as int);
            }
        }
        return (0, true);
    }
    let neg = ((f < 0) != (s < 0)) != (c < 0);
    let fa: i128 = if f > 0 { f } else { 0 - f };
    let a: u128 = fa as u128 * 10000;
    let b: u128 = if s > 0 { s as u128 } else { (0 - s) as u128 };
    let e: u128 = if c > 0 { c as u128 } else { (0 - c) as u128 };
    let cc: u128 = g as u128;
    proof {
        lemma_reliability_parts(f as int, s as int, c as int, g as int, a as int, b as int, e as int, neg);
        lemma_round_negative(a as int * b as int, cc as int * e as int);
        crate::stats::lemma_round_at_least(a as int * b as int, cc as int * e as int, 1);
    }
    if neg {
        return (0, true);
    }
    let rel = round_product_ratio(a, b, cc, e, 10000);
    let safe = cross_ge(a, 5000 * e, cc, b);
    proof {
        assert(cc as int * (5000 * e) as int == RISK_THRESHOLD * (cc as int * e as int)) by (nonlinear_arith);
    }
    (rel as i128, !safe)
}

/// The unrounded reliability `f * s * 10000 / (g * c)` as a quotient of positive magnitudes
/// `a * b` and `g * e`, with its sign `neg`.
proof fn lemma_reliability_parts(f: int, s: int, c: int, g: int, a: int, b: int, e: int, neg: bool)
    requires
        f != 0,
        s != 0,
        c != 0,
        g > 0,
        a == (if f > 0 { f } else { -f }) * 10000,
        b == (if s > 0 { s } else { -s }),
        e == (if c > 0 { c } else { -c }),
        neg == (((f < 0) != (s < 0)) != (c < 0)),
    ensures
        a * b > 0,
        g * e > 0,
        c > 0 ==> g * c == g * e && f * s * 10000 == (if neg { -(a * b) } else { a * b }),
        c < 0 ==> -(g * c) == g * e && -(f * s * 10000) == (if neg { -(a * b) } else { a * b }),
{
    let sf: int = if f > 0 { 1 } else { -1 };
    let ss: int = if s > 0 { 1 } else { -1 };
    let sc: int = if c > 0 { 1 } else { -1 };
    assert(a == sf * f * 10000 && b == ss * s && e == sc * c);
    assert(a * b > 0) by (nonlinear_arith)
        requires
            a >= 10000,
            b >= 1,
    ;
    assert(g * e > 0) by (nonlinear_arith)
        requires
            g > 0,
            e >= 1,
    ;
    assert(sc * (f * s * 10000) == (sf * ss * sc) * (a * b)) by (nonlinear_arith)
        requires
            a == sf * f * 10000,
            b == ss * s,
            sf * sf == 1,
            ss * ss == 1,
            sc * sc == 1,
    ;
    assert(sc * (g * c) == g * e) by (nonlinear_arith)
        requires
            e == sc * c,
    ;
    assert(sf * ss * sc == (if neg { -1int } else { 1int }));
    assert((if neg { -1int } else { 1int }) * (a * b) == (if neg { -(a * b) } else { a * b }));
}

/// Zero rounds to zero.
proof fn lemma_round_zero(d: int)
    requires
        d > 0,
    ensures
        round_half_away(0, d) == 0,
{
    assert(d / (2 * d) == 0) by (nonlinear_arith)
        requires
            d > 0,
    ;
}

/// For `p > 0`, `-p / q` rounds to at most 0.
proof fn lemma_round_negative(p: int, q: int)
    requires
        p > 0,
        q > 0,
    ensures
        round_half_away(-p, q) <= 0,
{
    assert((2 * p + q) / (2 * q) >= 0) by (nonlinear_arith)
        requires
            p > 0,
            q > 0,
    ;
}

/// The report line of one group.
fn contractor_row(grp: &Group) -> (row: ContractorRow)
    requires
        bounded(grp.acc@),
    ensures
        row.contractor@ == grp.key@.1,
        contractor_stats_ok(row, grp.acc@),
{
    let acc = &grp.acc;
    proof {
        lemma_bounded_mean_args(acc@);
    }
    let (rel, risky) = reliability_of(acc);
    let flag = if risky {
        proof {
            reveal_strlit("High Risk");
        }
        "High Risk".to_string()
    } else {
        proof {
            reveal_strlit("OK");
        }
        "OK".to_string()
    };
    ContractorRow {
        contractor: grp.key.first.clone(),
        num_projects: acc.count,
        total_cost: acc.cost_total,
        avg_delay: mean_of(acc.delay_total, acc.delay_count),
        total_savings: acc.savings_total,
        reliability_index: rel,
        risk_flag: flag,
    }
}

/// Top contractors: one line per contractor with at least `MIN_CONTRACTOR_PROJECTS`
/// projects, ordered by descending total cost and cut to the first `TOP_CONTRACTORS`.
pub fn report_top_contractors(projects: &Vec<Project>) -> (rows: Vec<ContractorRow>)
    requires
        reportable(projects@),
    ensures
        rows@.len() <= TOP_CONTRACTORS,
        rows@.len() == if eligible_contractors(projects@).len() < TOP_CONTRACTORS {
            eligible_contractors(projects@).len()
        } else {
            TOP_CONTRACTORS as nat
        },
        forall|i: int|
            0 <= i < rows@.len() ==> (#[trigger] contractor_tally(projects@, rows@[i])).count
                >= MIN_CONTRACTOR_PROJECTS && contractor_stats_ok(
                rows@[i],
                contractor_tally(projects@, rows@[i]),
            ),
        forall|i: int, j: int|
            0 <= i < j < rows@.len() ==> rows@[i].contractor@ != rows@[j].contractor@,
        forall|i: int, j: int|
            0 <= i < j < rows@.len() ==> rows@[i].total_cost >= rows@[j].total_cost,
        forall|k: int|
            0 <= k < projects@.len() && tally(
                projects@,
                KeyKind::Contractor,
                #[trigger] contractor_of(projects@[k]),
            ).count >= MIN_CONTRACTOR_PROJECTS ==> (exists|i: int|
                0 <= i < rows@.len() && contractor_key(rows@[i].contractor@) == contractor_of(
                    projects@[k],
                )) || (rows@.len() == TOP_CONTRACTORS && forall|i: int|
                0 <= i < rows@.len() ==> tally(
                    projects@,
                    KeyKind::Contractor,
                    contractor_of(projects@[k]),
                ).cost_total <= #[trigger] rows@[i].total_cost),
{
    let ghost ps = projects@;
    let groups = group_projects(projects, KeyKind::Contractor);
    let n = groups.len();
    let mut ranked: Vec<(Rank, ContractorRow)> = Vec::new();
    let ghost mut origin: Seq<int> = Seq::empty();
    let mut g: usize = 0;
    while g < n
        invariant
            n == groups@.len(),
            g <= n,
            ranked@.len() == origin.len(),
            forall|h: int| 0 <= h < n ==> bounded((#[trigger] groups@[h]).acc@),
            forall|h: int|
                0 <= h < ranked@.len() ==> 0 <= #[trigger] origin[h] < g && groups@[origin[h]].acc@.count
                    >= MIN_CONTRACTOR_PROJECTS && ranked@[h].1.contractor@ == groups@[origin[h]].key@.1
                    && contractor_stats_ok(ranked@[h].1, groups@[origin[h]].acc@) && ranked@[h].0@.0
                    == -ranked@[h].1.total_cost,
            forall|a: int, b: int| 0 <= a < b < ranked@.len() ==> origin[a] < origin[b],
            forall|h: int|
                0 <= h < g && groups@[h].acc@.count >= MIN_CONTRACTOR_PROJECTS ==> exists|e: int|
                    0 <= e < ranked@.len() && #[trigger] origin[e] == h,
        decreases n - g,
    {
        let ghost origin0 = origin;
        if groups[g].acc.count >= MIN_CONTRACTOR_PROJECTS {
            let row = contractor_row(&groups[g]);
            let t = row.total_cost;
            ranked.push((Rank { major: 0 - t, minor: String::new() }, row));
            proof {
                origin = origin.push(g as int);
            }
        }
        proof {
            assert forall|h: int|
                0 <= h < g + 1 && groups@[h].acc@.count >= MIN_CONTRACTOR_PROJECTS implies exists|e: int|
                    0 <= e < ranked@.len() && #[trigger] origin[e] == h by {
                if h == g {
                    assert(origin[origin.len() - 1] == h);
                } else {
                    let e = choose|e: int| 0 <= e < origin0.len() && #[trigger] origin0[e] == h;
                    assert(origin[e] == h);
                }
            }
        }
        g = g + 1;
    }
    let ghost ranked0 = ranked@;
    let sorted = sort_by_rank(ranked);
    let ghost sorted0 = sorted@;
    let mut rows = without_ranks(sorted);
    let ghost full = rows@;
    rows.truncate(TOP_CONTRACTORS);
    proof {
        let ks = Seq::new(origin.len(), |e: int| groups@[origin[e]].key@);
        assert(ks.no_duplicates()) by {
            assert forall|x: int, y: int| 0 <= x < ks.len() && 0 <= y < ks.len() && x != y implies ks[x] != ks[y] by {
                if x < y {
                    assert(origin[x] < origin[y]);
                } else {
                    assert(origin[y] < origin[x]);
                }
            }
        }
        assert forall|k: (int, Seq<char>, Seq<char>)| ks.contains(k) <==> eligible_contractors(ps).contains(k) by {
            if ks.contains(k) {
                let e = choose|e: int| 0 <= e < ks.len() && ks[e] == k;
                let h = origin[e];
                lemma_tally_member(ps, KeyKind::Contractor, k);
                let j = choose|j: int| 0 <= j < ps.len() && key_of(KeyKind::Contractor, #[trigger] ps[j]) == Some(k);
                assert(contractor_of(ps[j]) == k);
            }
            if eligible_contractors(ps).contains(k) {
                let j = choose|j: int|
                    0 <= j < ps.len() && contractor_of(#[trigger] ps[j]) == k && tally(
                        ps,
                        KeyKind::Contractor,
                        k,
                    ).count >= MIN_CONTRACTOR_PROJECTS;
                assert(key_of(KeyKind::Contractor, ps[j]) == Some(k));
                let h = choose|h: int| 0 <= h < groups@.len() && key_of(KeyKind::Contractor, ps[j]) == Some(groups@[h].key@);
                let e = choose|e: int| 0 <= e < ranked0.len() && #[trigger] origin[e] == h;
                assert(ks[e] == k);
            }
        }
        assert(ks.to_set() =~= eligible_contractors(ps));
        ks.unique_seq_to_set();
        assert(full.len() == ks.len());
    }
    proof {
        let perm = choose|perm: Seq<int>| rearranges(sorted0, ranked0, perm);
        assert forall|i: int| 0 <= i < full.len() implies #[trigger] full[i] == ranked0[perm[i]].1 by {
            assert(full[i] == sorted0[i].1);
        }
        assert forall|i: int| 0 <= i < full.len() implies groups@[origin[#[trigger] perm[i]]].key@
            == contractor_key(full[i].contractor@) by {
            assert(full[i] == ranked0[perm[i]].1);
            let k = groups@[origin[perm[i]]].key@;
            lemma_contractor_key_shape(ps, k);
            assert(k.2 =~= Seq::<char>::empty());
        }
        assert forall|i: int, j: int| 0 <= i < j < full.len() implies full[i].total_cost
            >= full[j].total_cost by {
            assert(!rank_before(sorted0[j].0@, sorted0[i].0@));
            assert(full[i] == sorted0[i].1);
            assert(full[j] == sorted0[j].1);
            assert(sorted0[i] == ranked0[perm[i]]);
            assert(sorted0[j] == ranked0[perm[j]]);
        }
        assert forall|i: int| 0 <= i < rows@.len() implies (#[trigger] contractor_tally(
            ps,
            rows@[i],
        )).count >= MIN_CONTRACTOR_PROJECTS && contractor_stats_ok(
            rows@[i],
            contractor_tally(ps, rows@[i]),
        ) by {
            assert(rows@[i] == full[i]);
            assert(groups@[origin[perm[i]]].key@ == contractor_key(full[i].contractor@));
        }
        assert forall|i: int, j: int| 0 <= i < j < rows@.len() implies rows@[i].contractor@
            != rows@[j].contractor@ by {
            assert(rows@[i] == full[i] && rows@[j] == full[j]);
            assert(groups@[origin[perm[i]]].key@ == contractor_key(full[i].contractor@));
            assert(groups@[origin[perm[j]]].key@ == contractor_key(full[j].contractor@));
            assert(perm[i] != perm[j]);
            if perm[i] < perm[j] {
                assert(origin[perm[i]] < origin[perm[j]]);
            } else {
                assert(origin[perm[j]] < origin[perm[i]]);
            }
        }
        assert forall|i: int, j: int| 0 <= i < j < rows@.len() implies rows@[i].total_cost
            >= rows@[j].total_cost by {
            assert(rows@[i] == full[i] && rows@[j] == full[j]);
        }
        assert forall|k: int|
            0 <= k < ps.len() && tally(ps, KeyKind::Contractor, #[trigger] contractor_of(ps[k])).count
                >= MIN_CONTRACTOR_PROJECTS implies (exists|i: int|
            0 <= i < rows@.len() && contractor_key(rows@[i].contractor@) == contractor_of(ps[k]))
            || (rows@.len() == TOP_CONTRACTORS && forall|i: int|
            0 <= i < rows@.len() ==> tally(ps, KeyKind::Contractor, contractor_of(ps[k])).cost_total
                <= #[trigger] rows@[i].total_cost) by {
            let key = contractor_of(ps[k]);
            assert(key_of(KeyKind::Contractor, ps[k]) == Some(key));
            let h = choose|h: int| 0 <= h < groups@.len() && key_of(KeyKind::Contractor, ps[k]) == Some(groups@[h].key@);
            let e = choose|e: int| 0 <= e < ranked0.len() && #[trigger] origin[e] == h;
            assert(hits(perm, e));
            let f = choose|f: int| 0 <= f < perm.len() && perm[f] == e;
            assert(groups@[origin[perm[f]]].key@ == contractor_key(full[f].contractor@));
            if f < TOP_CONTRACTORS {
                assert(rows@[f] == full[f]);
            } else {
                assert forall|i: int| 0 <= i < rows@.len() implies tally(ps, KeyKind::Contractor, key).cost_total
                    <= #[trigger] rows@[i].total_cost by {
                    assert(rows@[i] == full[i]);
                    assert(full[f].total_cost == tally(ps, KeyKind::Contractor, key).cost_total);
                }
            }
        }
    }
    rows
}

/// A contractor group with members has year 0 and an empty second name in its key.
proof fn lemma_contractor_key_shape(ps: Seq<Project>, k: (int, Seq<char>, Seq<char>))
    requires
        tally(ps, KeyKind::Contractor, k).count >= 1,
    ensures
        k.0 == 0,
        k.2 == Seq::<char>::empty(),
    decreases ps.len(),
{
    if ps.len() > 0 && key_of(KeyKind::Contractor, ps.last()) != Some(k) {
        lemma_contractor_key_shape(ps.drop_last(), k);
    }
}

/// One line of the annual trends report.
pub struct TrendRow {
    pub year: i32,
    pub type_of_work: String,
    pub total_projects: u64,
    /// Sum of present savings over the number of projects, in centavos.
    pub avg_savings: i128,
    /// The average savings divided by 100, in hundredths.
    pub overrun_rate: i128,
    /// Percent change of the average savings from the same type of work in the previous
    /// year, in hundredths; 0 without such a group or when its average is 0.
    pub yoy_change: i128,
}

pub open spec fn trend_key(year: int, work: Seq<char>) -> (int, Seq<char>, Seq<char>) {
    (year, work, Seq::empty())
}

/// The tally of the projects of `ps` with the row's year and type of work.
pub open spec fn trend_tally(ps: Seq<Project>, row: TrendRow) -> Tally {
    tally(ps, KeyKind::YearWork, trend_key(row.year as int, row.type_of_work@))
}

/// Percent change, in hundredths, from an average `s0 / n0` to an average `s1 / n1`.
pub open spec fn change_hundredths(s1: int, n1: int, s0: int, n0: int) -> int {
    let num = (s1 * n0 - s0 * n1) * FULL_SCALE;
    let den = n1 * s0;
    if den > 0 {
        round_half_away(num, den)
    } else {
        round_half_away(-num, -den)
    }
}

/// The year-over-year change of a group against the group of the previous year.
pub open spec fn yoy_of(t: Tally, prev: Tally) -> int {
    if prev.count == 0 || prev.savings_total == 0 || t.count == 0 {
        0
    } else {
        change_hundredths(t.savings_total, t.count, prev.savings_total, prev.count)
    }
}

/// The row's figures are those of its tally and of the previous year's.
pub open spec fn trend_stats_ok(row: TrendRow, t: Tally, prev: Tally) -> bool {
    &&& row.total_projects == t.count
    &&& row.avg_savings == round_half_away(t.savings_total, t.count)
    &&& row.overrun_rate == round_half_away(t.savings_total, 100 * t.count)
    &&& row.yoy_change == yoy_of(t, prev)
}

/// The previous year's tally for the same type of work.
pub open spec fn previous_tally(ps: Seq<Project>, row: TrendRow) -> Tally {
    tally(ps, KeyKind::YearWork, trend_key(row.year - 1, row.type_of_work@))
}

proof fn lemma_trend_key_shape(ps: Seq<Project>, k: (int, Seq<char>, Seq<char>))
    requires
        tally(ps, KeyKind::YearWork, k).count >= 1,
    ensures
        i32::MIN <= k.0 <= i32::MAX,
        k.2 == Seq::<char>::empty(),
    decreases ps.len(),
{
    if ps.len() > 0 && key_of(KeyKind::YearWork, ps.last()) != Some(k) {
        lemma_trend_key_shape(ps.drop_last(), k);
    }
}

/// The tally of a group, or of nobody when no group has the key.
fn find_group<'a>(groups: &'a Vec<Group>, key: &GroupKey) -> (r: Option<&'a Group>)
    ensures
        r matches Some(g) ==> exists|h: int| 0 <= h < groups@.len() && groups@[h] == *g && g.key@ == key@,
        r is None ==> forall|h: int| 0 <= h < groups@.len() ==> (#[trigger] groups@[h]).key@ != key@,
{
    let mut h: usize = 0;
    while h < groups.len()
        invariant
            h <= groups@.len(),
            forall|j: int| 0 <= j < h ==> (#[trigger] groups@[j]).key@ != key@,
        decreases groups@.len() - h,
    {
        if same_key(&groups[h].key, key) {
            return Some(&groups[h]);
        }
        h = h + 1;
    }
    None
}

/// The year-over-year change in hundredths.
fn yoy_value(acc: &GroupAcc, prev: &GroupAcc) -> (r: i128)
    requires
        bounded(acc@),
        bounded(prev@),
    ensures
        r == yoy_of(acc@, prev@),
{
    if prev.count == 0 || prev.savings_total == 0 || acc.count == 0 {
        return 0;
    }
    let s1 = acc.savings_total;
    let s0 = prev.savings_total;
    let n1 = acc.count as i128;
    let n0 = prev.count as i128;
    let ghost b: int = (MAX_ROWS as int) * (2 * MAX_SCALED);
    assert(-b <= s1 <= b && -b <= s0 <= b) by (nonlinear_arith)
        requires
            0 <= acc@.count <= MAX_ROWS,
            0 <= prev@.count <= MAX_ROWS,
            -acc@.count * (2 * MAX_SCALED) <= s1 <= acc@.count * (2 * MAX_SCALED),
            -prev@.count * (2 * MAX_SCALED) <= s0 <= prev@.count * (2 * MAX_SCALED),
            b == (MAX_ROWS as int) * (2 * MAX_SCALED),
    ;
    assert(-b * MAX_ROWS <= s1 * n0 <= b * MAX_ROWS && -b * MAX_ROWS <= s0 * n1 <= b * MAX_ROWS) by (nonlinear_arith)
        requires
            -b <= s1 <= b,
            -b <= s0 <= b,
            0 <= n0 <= MAX_ROWS,
            0 <= n1 <= MAX_ROWS,
            b >= 0,
    ;
    assert(-b * MAX_ROWS <= n1 * s0 <= b * MAX_ROWS) by (nonlinear_arith)
        requires
            -b <= s0 <= b,
            0 <= n1 <= MAX_ROWS,
            b >= 0,
    ;
    assert(n1 * s0 != 0) by (nonlinear_arith)
        requires
            n1 >= 1,
            s0 != 0,
    ;
    let num = (s1 * n0 - s0 * n1) * FULL_SCALE;
    let den = n1 * s0;
    if den > 0 {
        round_div(num, den)
    } else {
        round_div(0 - num, 0 - den)
    }
}

/// The report line of one group.
fn trend_row(grp: &Group, prev: &GroupAcc) -> (row: TrendRow)
    requires
        bounded(grp.acc@),
        bounded(prev@),
        grp.acc@.count >= 1,
        i32::MIN <= grp.key@.0 <= i32::MAX,
    ensures
        row.year == grp.key@.0,
        row.type_of_work@ == grp.key@.1,
        trend_stats_ok(row, grp.acc@, prev@),
{
    let acc = &grp.acc;
    let n = acc.count as i128;
    let s = acc.savings_total;
    assert(-(MAX_ROWS as int) * (2 * MAX_SCALED) <= s <= (MAX_ROWS as int) * (2 * MAX_SCALED)) by (nonlinear_arith)
        requires
            0 <= acc@.count <= MAX_ROWS,
            -acc@.count * (2 * MAX_SCALED) <= s <= acc@.count * (2 * MAX_SCALED),
    ;
    TrendRow {
        year: grp.key.year,
        type_of_work: grp.key.first.clone(),
        total_projects: acc.count,
        avg_savings: round_div(s, n),
        overrun_rate: round_div(s, 100 * n),
        yoy_change: yoy_value(acc, prev),
    }
}

/// Annual trends: one line per (funding year, type of work) of the projects that have a
/// funding year, an absent type of work counting as `Unknown`; ordered by year and then by
/// type of work.
pub fn report_annual_trends(projects: &Vec<Project>) -> (rows: Vec<TrendRow>)
    requires
        reportable(projects@),
    ensures
        forall|i: int|
            0 <= i < rows@.len() ==> (#[trigger] trend_tally(projects@, rows@[i])).count >= 1
                && trend_stats_ok(rows@[i], trend_tally(projects@, rows@[i]), previous_tally(projects@, rows@[i])),
        forall|i: int, j: int|
            0 <= i < j < rows@.len() ==> (rows@[i].year, rows@[i].type_of_work@) != (
                rows@[j].year,
                rows@[j].type_of_work@,
            ),
        forall|k: int|
            0 <= k < projects@.len() && (#[trigger] projects@[k]).funding_year is Some ==> exists|i: int|
                0 <= i < rows@.len() && key_of(KeyKind::YearWork, projects@[k]) == Some(
                    trend_key(rows@[i].year as int, rows@[i].type_of_work@),
                ),
        forall|i: int, j: int|
            0 <= i < j < rows@.len() ==> !rank_before(
                (rows@[j].year as int, rows@[j].type_of_work@),
                (rows@[i].year as int, rows@[i].type_of_work@),
            ),
{
    let ghost ps = projects@;
    let groups = group_projects(projects, KeyKind::YearWork);
    let n = groups.len();
    let none = GroupAcc::new();
    let mut ranked: Vec<(Rank, TrendRow)> = Vec::new();
    let mut g: usize = 0;
    while g < n
        invariant
            n == groups@.len(),
            g <= n,
            ranked@.len() == g,
            none@ == crate::aggregate::empty_tally(),
            forall|h: int| 0 <= h < n ==> bounded((#[trigger] groups@[h]).acc@),
            forall|h: int| 0 <= h < n ==> (#[trigger] groups@[h]).acc@.count >= 1,
            forall|h: int| 0 <= h < n ==> (#[trigger] groups@[h]).acc@ == tally(ps, KeyKind::YearWork, groups@[h].key@),
            forall|j: int|
                0 <= j < ps.len() && (#[trigger] key_of(KeyKind::YearWork, ps[j])) is Some ==> exists|h: int|
                    0 <= h < groups@.len() && key_of(KeyKind::YearWork, ps[j]) == Some(groups@[h].key@),
            forall|h: int|
                0 <= h < g ==> (#[trigger] ranked@[h]).1.year == groups@[h].key@.0
                    && ranked@[h].1.type_of_work@ == groups@[h].key@.1 && trend_stats_ok(
                    ranked@[h].1,
                    groups@[h].acc@,
                    tally(ps, KeyKind::YearWork, trend_key(groups@[h].key@.0 - 1, groups@[h].key@.1)),
                ) && ranked@[h].0@ == (ranked@[h].1.year as int, ranked@[h].1.type_of_work@),
        decreases n - g,
    {
        let grp = &groups[g];
        proof {
            lemma_trend_key_shape(ps, grp.key@);
        }
        let row = if grp.key.year == i32::MIN {
            let ghost k = trend_key(grp.key@.0 - 1, grp.key@.1);
            proof {
                assert forall|j: int| 0 <= j < ps.len() implies key_of(KeyKind::YearWork, #[trigger] ps[j]) != Some(k) by {}
                lemma_tally_absent(ps, KeyKind::YearWork, k);
            }
            trend_row(grp, &none)
        } else {
            let key = GroupKey { year: grp.key.year - 1, first: grp.key.first.clone(), second: String::new() };
            assert(key@ == trend_key(grp.key@.0 - 1, grp.key@.1));
            match find_group(&groups, &key) {
                Some(prev) => {
                    trend_row(grp, &prev.acc)
                },
                None => {
                    proof {
                        assert forall|j: int| 0 <= j < ps.len() implies key_of(KeyKind::YearWork, #[trigger] ps[j]) != Some(key@) by {
                            if key_of(KeyKind::YearWork, ps[j]) == Some(key@) {
                                let h = choose|h: int| 0 <= h < groups@.len() && key_of(KeyKind::YearWork, ps[j]) == Some(groups@[h].key@);
                                assert(groups@[h].key@ == key@);
                            }
                        }
                        lemma_tally_absent(ps, KeyKind::YearWork, key@);
                    }
                    trend_row(grp, &none)
                },
            }
        };
        let rank = Rank { major: row.year as i128, minor: row.type_of_work.clone() };
        ranked.push((rank, row));
        g = g + 1;
    }
    let ghost ranked0 = ranked@;
    let sorted = sort_by_rank(ranked);
    let ghost sorted0 = sorted@;
    let rows = without_ranks(sorted);
    proof {
        let perm = choose|perm: Seq<int>| rearranges(sorted0, ranked0, perm);
        assert forall|i: int| 0 <= i < rows@.len() implies groups@[#[trigger] perm[i]].key@ == trend_key(
            rows@[i].year as int,
            rows@[i].type_of_work@,
        ) && rows@[i] == ranked0[perm[i]].1 by {
            assert(rows@[i] == sorted0[i].1);
            assert(sorted0[i] == ranked0[perm[i]]);
            lemma_trend_key_shape(ps, groups@[perm[i]].key@);
        }
        assert forall|i: int| 0 <= i < rows@.len() implies (#[trigger] trend_tally(ps, rows@[i])).count >= 1
            && trend_stats_ok(rows@[i], trend_tally(ps, rows@[i]), previous_tally(ps, rows@[i])) by {
            assert(groups@[perm[i]].key@ == trend_key(rows@[i].year as int, rows@[i].type_of_work@));
        }
        assert forall|i: int, j: int| 0 <= i < j < rows@.len() implies (rows@[i].year, rows@[i].type_of_work@) != (
            rows@[j].year,
            rows@[j].type_of_work@,
        ) by {
            assert(groups@[perm[i]].key@ == trend_key(rows@[i].year as int, rows@[i].type_of_work@));
            assert(groups@[perm[j]].key@ == trend_key(rows@[j].year as int, rows@[j].type_of_work@));
            assert(perm[i] != perm[j]);
            if (rows@[i].year, rows@[i].type_of_work@) == (rows@[j].year, rows@[j].type_of_work@) {
                if perm[i] < perm[j] {
                    assert(groups@[perm[i]].key@ != groups@[perm[j]].key@);
                } else {
                    assert(groups@[perm[j]].key@ != groups@[perm[i]].key@);
                }
            }
        }
        assert forall|k: int|
            0 <= k < ps.len() && (#[trigger] ps[k]).funding_year is Some implies exists|i: int|
                0 <= i < rows@.len() && key_of(KeyKind::YearWork, ps[k]) == Some(
                    trend_key(rows@[i].year as int, rows@[i].type_of_work@),
                ) by {
            assert(key_of(KeyKind::YearWork, ps[k]) is Some);
            let h = choose|h: int| 0 <= h < groups@.len() && key_of(KeyKind::YearWork, ps[k]) == Some(groups@[h].key@);
            assert(hits(perm, h));
            let i = choose|i: int| 0 <= i < perm.len() && perm[i] == h;
            assert(groups@[perm[i]].key@ == trend_key(rows@[i].year as int, rows@[i].type_of_work@));
        }
        assert forall|i: int, j: int| 0 <= i < j < rows@.len() implies !rank_before(
            (rows@[j].year as int, rows@[j].type_of_work@),
            (rows@[i].year as int, rows@[i].type_of_work@),
        ) by {
            assert(!rank_before(sorted0[j].0@, sorted0[i].0@));
            assert(sorted0[i] == ranked0[perm[i]]);
            assert(sorted0[j] == ranked0[perm[j]]);
            assert(rows@[i] == sorted0[i].1);
            assert(rows@[j] == sorted0[j].1);
        }
    }
    rows
}

} // verus!
