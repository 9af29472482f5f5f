//! The dataset-wide summary and the name cleaning it counts distinct names with.
use vstd::prelude::*;
use vstd::string::*;
use crate::aggregate::{GroupAcc, KeyKind, MAX_ROWS, bounded, tally};
use crate::loader::texts;
use crate::model::Project;
use crate::reports::{mean_hundredths, reportable};
use crate::text::{contains_spec, contains_text, lower_of, to_lower, to_upper, trim, trim_spec, upper_of};

verus! {

/// A contractor name cleaned for counting: trimmed and upper-cased; `None` when empty or
/// when it is a reference to another record rather than a name.
pub open spec fn clean_contractor_spec(s: Seq<char>) -> Option<Seq<char>> {
    let n = trim_spec(s);
    if n.len() == 0 {
        None
    } else if contains_spec(lower_of(n), "clustered with contract id"@) || contains_spec(
        lower_of(n),
        "myca with project id"@,
    ) {
        None
    } else {
        Some(upper_of(n))
    }
}

/// A province name cleaned for counting: trimmed and upper-cased; `None` when empty.
pub open spec fn clean_province_spec(s: Seq<char>) -> Option<Seq<char>> {
    let n = trim_spec(s);
    if n.len() == 0 {
        None
    } else {
        Some(upper_of(n))
    }
}

/// Cleans a contractor name for counting distinct contractors.
pub fn clean_contractor(name: &str) -> (r: Option<String>)
    ensures
        r matches Some(s) ==> clean_contractor_spec(name@) == Some(s@),
        r is None ==> clean_contractor_spec(name@) is None,
{
    let n = trim(name);
    if n.as_str().unicode_len() == 0 {
        return None;
    }
    let lower = to_lower(n.as_str());
    proof {
        reveal_strlit("clustered with contract id");
        reveal_strlit("myca with project id");
    }
    if contains_text(lower.as_str(), "clustered with contract id") {
        return None;
    }
    if contains_text(lower.as_str(), "myca with project id") {
        return None;
    }
    Some(to_upper(n.as_str()))
}

/// Cleans a province name for counting distinct provinces.
pub fn clean_province(name: &str) -> (r: Option<String>)
    ensures
        r matches Some(s) ==> clean_province_spec(name@) == Some(s@),
        r is None ==> clean_province_spec(name@) is None,
{
    let n = trim(name);
    if n.as_str().unicode_len() == 0 {
        return None;
    }
    Some(to_upper(n.as_str()))
}

/// The distinct cleaned contractor names of the projects.
pub open spec fn contractor_names(ps: Seq<Project>) -> Set<Seq<char>>
    decreases ps.len(),
{
    if ps.len() == 0 {
        Set::empty()
    } else {
        let s = contractor_names(ps.drop_last());
        match ps.last().contractor {
            Some(c) => match clean_contractor_spec(c@) {
                Some(x) => s.insert(x),
                None => s,
            },
            None => s,
        }
    }
}

/// The distinct cleaned province names of the projects.
pub open spec fn province_names(ps: Seq<Project>) -> Set<Seq<char>>
    decreases ps.len(),
{
    if ps.len() == 0 {
        Set::empty()
    } else {
        let s = province_names(ps.drop_last());
        match ps.last().province {
            Some(c) => match clean_province_spec(c@) {
                Some(x) => s.insert(x),
                None => s,
            },
            None => s,
        }
    }
}

/// The key of the single group of every project.
pub open spec fn all_key() -> (int, Seq<char>, Seq<char>) {
    (0, Seq::empty(), Seq::empty())
}

/// Dataset-wide totals.
pub struct Summary {
    pub total_projects: u64,
    pub total_contractors: u64,
    pub total_provinces: u64,
    /// Mean of the present delays, in hundredths of a day.
    pub global_avg_delay_days: i128,
    /// Sum of the present cost savings, in centavos.
    pub global_total_savings: i128,
}

/// Adds `x` to a list of distinct names unless it is there.
fn add_distinct(names: &mut Vec<String>, x: String)
    requires
        texts(old(names)@).no_duplicates(),
    ensures
        texts(final(names)@).no_duplicates(),
        texts(final(names)@).to_set() == texts(old(names)@).to_set().insert(x@),
        final(names)@.len() <= old(names)@.len() + 1,
{
    let ghost before = texts(names@);
    let mut i: usize = 0;
    while i < names.len()
        invariant
            i <= names@.len(),
            before == texts(names@),
            before.no_duplicates(),
            forall|j: int| 0 <= j < i ==> before[j] != x@,
        decreases names@.len() - i,
    {
        if names[i] == x {
            assert(before[i as int] == x@);
            assert(before.to_set().insert(x@) =~= before.to_set());
            return;
        }
        i = i + 1;
    }
    names.push(x);
    proof {
        let after = texts(names@);
        assert(after =~= before.push(x@));
        assert forall|y: Seq<char>| after.contains(y) <==> before.contains(y) || y == x@ by {
            if after.contains(y) {
                let j = choose|j: int| 0 <= j < after.len() && after[j] == y;
                if j < before.len() {
                    assert(before[j] == y);
                }
            }
            if before.contains(y) {
                let j = choose|j: int| 0 <= j < before.len() && before[j] == y;
                assert(after[j] == y);
            }
            if y == x@ {
                assert(after[before.len() as int] == y);
            }
        }
        assert(after.to_set() =~= before.to_set().insert(x@));
    }
}

/// Totals over the projects: their number, the distinct cleaned contractor and province
/// names, the mean of the present delays and the sum of the present savings.
pub fn summarize(projects: &Vec<Project>) -> (r: Summary)
    requires
        reportable(projects@),
    ensures
        r.total_projects == projects@.len(),
        r.total_contractors == contractor_names(projects@).len(),
        r.total_provinces == province_names(projects@).len(),
        r.global_avg_delay_days == mean_hundredths(
            tally(projects@, KeyKind::All, all_key()).delay_total,
            tally(projects@, KeyKind::All, all_key()).delay_count,
        ),
        r.global_total_savings == tally(projects@, KeyKind::All, all_key()).savings_total,
{
    let ghost ps = projects@;
    let mut contractors: Vec<String> = Vec::new();
    let mut provinces: Vec<String> = Vec::new();
    let mut acc = GroupAcc::new();
    let mut i: usize = 0;
    while i < projects.len()
        invariant
            i <= ps.len() <= MAX_ROWS,
            ps == projects@,
            reportable(ps),
            texts(contractors@).no_duplicates(),
            texts(provinces@).no_duplicates(),
            texts(contractors@).to_set() == contractor_names(ps.subrange(0, i as int)),
            texts(provinces@).to_set() == province_names(ps.subrange(0, i as int)),
            contractors@.len() <= i,
            provinces@.len() <= i,
            acc@ == tally(ps.subrange(0, i as int), KeyKind::All, all_key()),
            acc@.count == i,
            bounded(acc@),
        decreases ps.len() - i,
    {
        let p = &projects[i];
        let ghost pre = ps.subrange(0, i as int);
        let ghost next = ps.subrange(0, i + 1);
        assert(next.drop_last() =~= pre);
        assert(next.last() == ps[i as int]);
        if let Some(c) = &p.contractor {
            if let Some(x) = clean_contractor(c.as_str()) {
                add_distinct(&mut contractors, x);
            }
        }
        if let Some(c) = &p.province {
            if let Some(x) = clean_province(c.as_str()) {
                add_distinct(&mut provinces, x);
            }
        }
        acc.add(p);
        i = i + 1;
    }
    assert(ps.subrange(0, ps.len() as int) =~= ps);
    proof {
        texts(contractors@).unique_seq_to_set();
        texts(provinces@).unique_seq_to_set();
    }
    let delay = crate::reports::mean_delay_of(&acc);
    Summary {
        total_projects: projects.len() as u64,
        total_contractors: contractors.len() as u64,
        total_provinces: provinces.len() as u64,
        global_avg_delay_days: delay,
        global_total_savings: acc.savings_total,
    }
}

} // verus!
