//! Properties that relate the pipeline's stages, proved over their contracts.
use vstd::prelude::*;
use crate::aggregate::{KeyKind, tally};
use crate::loader::{
    in_window_pred, Columns, cluster_pattern, field_spec, first_capture, loaded_from, registered, MONEY_PLACES,
};
use crate::model::{Project, opt_int};
use crate::normalize::{is_positive_max, is_positive_min, normalizes, scaled, span};
use crate::parse::parse_decimal_spec;
use crate::summary::all_key;

verus! {

/// A derived field is never computed from a default: without a budget or a cost there are
/// no savings, and without both dates there is no delay.
pub proof fn lemma_derived_absent(p: Project)
    requires
        p.wf(),
    ensures
        p.approved_budget_for_contract is None || p.contract_cost is None ==> p.cost_savings is None,
        p.start_date is None || p.actual_completion_date is None ==> p.completion_delay_days is None,
{
}

/// A budget that refers to contract `x` takes the budget registered for `x` in the same
/// table, and is absent when no row registers a budget for `x`.
pub proof fn lemma_cluster_reference(
    p: Project,
    row: Seq<Seq<char>>,
    all: Seq<Seq<Seq<char>>>,
    cols: Columns,
    x: Seq<char>,
)
    requires
        loaded_from(p, row, all, cols),
        parse_decimal_spec(field_spec(row, cols.budget), MONEY_PLACES as nat) is None,
        first_capture(cluster_pattern(), field_spec(row, cols.budget)) == Some(x),
    ensures
        opt_int(p.approved_budget_for_contract) == registered(all, cols.contract_id, cols.budget, x),
        (forall|i: int|
            0 <= i < all.len() ==> field_spec(#[trigger] all[i], cols.contract_id) != x)
            ==> p.approved_budget_for_contract is None,
{
    if forall|i: int| 0 <= i < all.len() ==> field_spec(#[trigger] all[i], cols.contract_id) != x {
        lemma_unregistered(all, cols.contract_id, cols.budget, x);
    }
}

/// An identifier that no row carries has nothing registered.
pub proof fn lemma_unregistered(
    all: Seq<Seq<Seq<char>>>,
    id_col: Option<usize>,
    val_col: Option<usize>,
    x: Seq<char>,
)
    requires
        forall|i: int| 0 <= i < all.len() ==> field_spec(#[trigger] all[i], id_col) != x,
    ensures
        registered(all, id_col, val_col, x) is None,
    decreases all.len(),
{
    if all.len() > 0 {
        assert(field_spec(all[all.len() - 1], id_col) != x);
        assert forall|i: int| 0 <= i < all.drop_last().len() implies field_spec(
            #[trigger] all.drop_last()[i],
            id_col,
        ) != x by {
            assert(all.drop_last()[i] == all[i]);
        }
        lemma_unregistered(all.drop_last(), id_col, val_col, x);
    }
}

/// When every positive raw score has the same value `v`, normalization divides by nothing
/// and gives 0 everywhere.
pub proof fn lemma_equal_scores_normalize_to_zero(r: Seq<int>, s: Seq<(int, int)>, v: (int, int))
    requires
        normalizes(r, s),
        v.1 > 0,
        forall|i: int| 0 <= i < s.len() ==> s[i].1 > 0,
        forall|i: int| 0 <= i < s.len() && s[i].0 > 0 ==> s[i].0 * v.1 == v.0 * s[i].1,
    ensures
        forall|i: int| 0 <= i < r.len() ==> r[i] == 0,
{
    if exists|lo: (int, int), hi: (int, int)|
        is_positive_min(s, lo) && is_positive_max(s, hi) && forall|i: int|
            0 <= i < r.len() ==> #[trigger] r[i] == scaled(s[i], lo, hi) {
        let (lo, hi) = choose|lo: (int, int), hi: (int, int)|
            is_positive_min(s, lo) && is_positive_max(s, hi) && forall|i: int|
                0 <= i < r.len() ==> #[trigger] r[i] == scaled(s[i], lo, hi);
        let a = choose|i: int| 0 <= i < s.len() && s[i] == lo;
        let b = choose|i: int| 0 <= i < s.len() && s[i] == hi;
        assert(lo.0 * v.1 == v.0 * lo.1 && hi.0 * v.1 == v.0 * hi.1);
        assert(v.1 * span(lo, hi) == 0) by (nonlinear_arith)
            requires
                lo.0 * v.1 == v.0 * lo.1,
                hi.0 * v.1 == v.0 * hi.1,
        ;
        assert(span(lo, hi) == 0) by (nonlinear_arith)
            requires
                v.1 * span(lo, hi) == 0,
                v.1 > 0,
        ;
        assert forall|i: int| 0 <= i < r.len() implies r[i] == 0 by {
            assert(r[i] == scaled(s[i], lo, hi));
        }
    }
}

/// Sum of `budget - cost` over the projects that have both.
pub open spec fn paired_savings(ps: Seq<Project>) -> int
    decreases ps.len(),
{
    if ps.len() == 0 {
        0
    } else {
        paired_savings(ps.drop_last()) + match (
            ps.last().approved_budget_for_contract,
            ps.last().contract_cost,
        ) {
            (Some(b), Some(c)) => b - c,
            _ => 0,
        }
    }
}

/// Over well-formed projects, the all-project tally counts every project, and its savings
/// total is exactly the sum of `budget - cost` over the projects that have both.
pub proof fn lemma_summary_totals(ps: Seq<Project>)
    requires
        forall|i: int| 0 <= i < ps.len() ==> (#[trigger] ps[i]).wf(),
    ensures
        tally(ps, KeyKind::All, all_key()).count == ps.len(),
        tally(ps, KeyKind::All, all_key()).savings_total == paired_savings(ps),
    decreases ps.len(),
{
    if ps.len() > 0 {
        assert forall|i: int| 0 <= i < ps.drop_last().len() implies (
        #[trigger] ps.drop_last()[i]).wf() by {
            assert(ps.drop_last()[i] == ps[i]);
        }
        lemma_summary_totals(ps.drop_last());
        assert(ps.last().wf()) by {
            assert(ps.last() == ps[ps.len() - 1]);
        }
        assert(crate::aggregate::key_of(KeyKind::All, ps.last()) == Some(all_key()));
    }
}

/// Keeping the projects of the reporting window keeps them well formed.
proof fn lemma_window_keeps_wf(ps: Seq<Project>)
    requires
        forall|i: int| 0 <= i < ps.len() ==> (#[trigger] ps[i]).wf(),
    ensures
        forall|i: int|
            0 <= i < ps.filter(in_window_pred()).len() ==> (#[trigger] ps.filter(
                in_window_pred(),
            )[i]).wf(),
    decreases ps.len(),
{
    reveal(Seq::filter);
    if ps.len() > 0 {
        assert forall|i: int| 0 <= i < ps.drop_last().len() implies (
        #[trigger] ps.drop_last()[i]).wf() by {
            assert(ps.drop_last()[i] == ps[i]);
        }
        lemma_window_keeps_wf(ps.drop_last());
        assert(ps.last() == ps[ps.len() - 1]);
        let sub = ps.drop_last().filter(in_window_pred());
        let f = ps.filter(in_window_pred());
        assert forall|i: int| 0 <= i < f.len() implies (#[trigger] f[i]).wf() by {
            if i < sub.len() {
                assert(f[i] == sub[i]);
            } else {
                assert(f[i] == ps.last());
            }
        }
    }
}

/// The summary of the reporting window counts exactly the projects whose funding year lies
/// in the window, and its total savings is exactly the sum of `budget - cost` over those of
/// them that have both.
pub proof fn lemma_windowed_summary(ps: Seq<Project>)
    requires
        forall|i: int| 0 <= i < ps.len() ==> (#[trigger] ps[i]).wf(),
    ensures
        tally(ps.filter(in_window_pred()), KeyKind::All, all_key()).count == ps.filter(
            in_window_pred(),
        ).len(),
        tally(ps.filter(in_window_pred()), KeyKind::All, all_key()).savings_total
            == paired_savings(ps.filter(in_window_pred())),
{
    lemma_window_keeps_wf(ps);
    lemma_summary_totals(ps.filter(in_window_pred()));
}

/// Row `a` is the only row that registers an amount under `x`: its identifier is `x` and
/// its amount text is a plain number `b`. Then `x` resolves to `b`, wherever row `a` stands.
pub proof fn lemma_single_registration(
    all: Seq<Seq<Seq<char>>>,
    id_col: Option<usize>,
    val_col: Option<usize>,
    x: Seq<char>,
    a: int,
    b: int,
)
    requires
        0 <= a < all.len(),
        x.len() > 0,
        field_spec(all[a], id_col) == x,
        parse_decimal_spec(field_spec(all[a], val_col), MONEY_PLACES as nat) == Some(b),
        forall|i: int|
            0 <= i < all.len() && i != a && field_spec(#[trigger] all[i], id_col) == x
                ==> parse_decimal_spec(field_spec(all[i], val_col), MONEY_PLACES as nat) is None,
    ensures
        registered(all, id_col, val_col, x) == Some(b),
    decreases all.len(),
{
    let n = all.len() - 1;
    assert(all.last() == all[n]);
    if a < n {
        assert forall|i: int|
            0 <= i < all.drop_last().len() && i != a && field_spec(
                #[trigger] all.drop_last()[i],
                id_col,
            ) == x implies parse_decimal_spec(
            field_spec(all.drop_last()[i], val_col),
            MONEY_PLACES as nat,
        ) is None by {
            assert(all.drop_last()[i] == all[i]);
        }
        assert(all.drop_last()[a] == all[a]);
        lemma_single_registration(all.drop_last(), id_col, val_col, x, a, b);
    }
}

} // verus!
