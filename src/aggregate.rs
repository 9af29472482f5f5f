//! Grouping of projects by a fixed key and exact per-group tallies.
use vstd::prelude::*;
use vstd::string::*;
use crate::model::Project;
use crate::parse::MAX_SCALED;

verus! {

/// Largest number of projects the reports take; it keeps every exact sum and product
/// within 128-bit arithmetic.
pub const MAX_ROWS: usize = 0x10_0000;

/// Largest magnitude of a completion delay in days (two `i32` day numbers apart).
pub const MAX_DELAY: i128 = 0x1_0000_0000;

/// Delays above this many days count as high.
pub const HIGH_DELAY_DAYS: i64 = 30;

/// How projects are grouped.
#[derive(Clone, Copy, PartialEq, Eq, Structural)]
pub enum KeyKind {
    /// By region and main island.
    RegionIsland,
    /// By contractor.
    Contractor,
    /// By funding year and type of work (`Unknown` when absent); projects without a funding
    /// year are left out.
    YearWork,
    /// One group of every project.
    All,
}

/// A group key: a year (0 when unused) and up to two names (empty when unused).
pub struct GroupKey {
    pub year: i32,
    pub first: String,
    pub second: String,
}

impl GroupKey {
    pub open spec fn view(&self) -> (int, Seq<char>, Seq<char>) {
        (self.year as int, self.first@, self.second@)
    }
}

/// A categorical attribute, with the sentinel `Unknown` when absent.
pub open spec fn name_or_unknown(o: Option<String>) -> Seq<char> {
    match o {
        Some(s) => s@,
        None => "Unknown"@,
    }
}

/// The key of a project under a grouping, if it takes part in it.
pub open spec fn key_of(kind: KeyKind, p: Project) -> Option<(int, Seq<char>, Seq<char>)> {
    match kind {
        KeyKind::RegionIsland => Some(
            (0, name_or_unknown(p.region), name_or_unknown(p.main_island)),
        ),
        KeyKind::Contractor => Some((0, name_or_unknown(p.contractor), Seq::empty())),
        KeyKind::YearWork => match p.funding_year {
            Some(y) => Some((y as int, name_or_unknown(p.type_of_work), Seq::empty())),
            None => None,
        },
        KeyKind::All => Some((0, Seq::empty(), Seq::empty())),
    }
}

fn name_text(o: &Option<String>) -> (r: String)
    ensures
        r@ == name_or_unknown(*o),
{
    match o {
        Some(s) => s.clone(),
        None => {
            proof {
                reveal_strlit("Unknown");
            }
            "Unknown".to_string()
        },
    }
}

/// Computes a project's key under a grouping.
pub fn project_key(kind: KeyKind, p: &Project) -> (r: Option<GroupKey>)
    ensures
        r matches Some(k) ==> key_of(kind, *p) == Some(k@),
        r is None ==> key_of(kind, *p) is None,
{
    match kind {
        KeyKind::RegionIsland => Some(
            GroupKey { year: 0, first: name_text(&p.region), second: name_text(&p.main_island) },
        ),
        KeyKind::Contractor => {
            let k = GroupKey { year: 0, first: name_text(&p.contractor), second: String::new() };
            assert(k@.2 =~= Seq::<char>::empty());
            Some(k)
        },
        KeyKind::YearWork => match p.funding_year {
            Some(y) => {
                let k = GroupKey { year: y, first: name_text(&p.type_of_work), second: String::new() };
                assert(k@.2 =~= Seq::<char>::empty());
                Some(k)
            },
            None => None,
        },
        KeyKind::All => {
            let k = GroupKey { year: 0, first: String::new(), second: String::new() };
            assert(k@.1 =~= Seq::<char>::empty());
            assert(k@.2 =~= Seq::<char>::empty());
            Some(k)
        },
    }
}

/// Whether two keys are equal.
pub fn same_key(a: &GroupKey, b: &GroupKey) -> (r: bool)
    ensures
        r == (a@ == b@),
{
    a.year == b.year && a.first == b.first && a.second == b.second
}

/// Running totals of a group.
pub struct Tally {
    pub count: int,
    pub budget_total: int,
    pub cost_total: int,
    pub savings_total: int,
    pub savings: Seq<i64>,
    pub delay_total: int,
    pub delay_count: int,
    pub high_delays: int,
}

pub open spec fn empty_tally() -> Tally {
    Tally {
        count: 0,
        budget_total: 0,
        cost_total: 0,
        savings_total: 0,
        savings: Seq::empty(),
        delay_total: 0,
        delay_count: 0,
        high_delays: 0,
    }
}

pub open spec fn present(o: Option<i64>) -> int {
    match o {
        Some(v) => v as int,
        None => 0,
    }
}

/// The tally with one more member: absent values are skipped, never counted as zero.
pub open spec fn add_project(t: Tally, p: Project) -> Tally {
    Tally {
        count: t.count + 1,
        budget_total: t.budget_total + present(p.approved_budget_for_contract),
        cost_total: t.cost_total + present(p.contract_cost),
        savings_total: t.savings_total + present(p.cost_savings),
        savings: match p.cost_savings {
            Some(s) => t.savings.push(s),
            None => t.savings,
        },
        delay_total: t.delay_total + present(p.completion_delay_days),
        delay_count: t.delay_count + if p.completion_delay_days is Some {
            1int
        } else {
            0int
        },
        high_delays: t.high_delays + match p.completion_delay_days {
            Some(d) => if d > HIGH_DELAY_DAYS {
                1int
            } else {
                0int
            },
            None => 0int,
        },
    }
}

/// The tally of the projects of `ps` whose key under `kind` is `k`.
pub open spec fn tally(ps: Seq<Project>, kind: KeyKind, k: (int, Seq<char>, Seq<char>)) -> Tally
    decreases ps.len(),
{
    if ps.len() == 0 {
        empty_tally()
    } else {
        let t = tally(ps.drop_last(), kind, k);
        if key_of(kind, ps.last()) == Some(k) {
            add_project(t, ps.last())
        } else {
            t
        }
    }
}

/// The bounds that the totals of `t` keep, given its count.
pub open spec fn bounded(t: Tally) -> bool {
    &&& 0 <= t.count <= MAX_ROWS
    &&& -t.count * MAX_SCALED <= t.budget_total <= t.count * MAX_SCALED
    &&& -t.count * MAX_SCALED <= t.cost_total <= t.count * MAX_SCALED
    &&& -t.count * (2 * MAX_SCALED) <= t.savings_total <= t.count * (2 * MAX_SCALED)
    &&& 0 <= t.delay_count <= t.count
    &&& -t.delay_count * MAX_DELAY <= t.delay_total <= t.delay_count * MAX_DELAY
    &&& 0 <= t.high_delays <= t.delay_count
    &&& t.savings.len() <= t.count
    &&& forall|i: int|
        0 <= i < t.savings.len() ==> -2 * MAX_SCALED <= #[trigger] t.savings[i] <= 2 * MAX_SCALED
}

/// Exact running totals of a group.
pub struct GroupAcc {
    pub count: u64,
    pub budget_total: i128,
    pub cost_total: i128,
    pub savings_total: i128,
    pub savings: Vec<i64>,
    pub delay_total: i128,
    pub delay_count: u64,
    pub high_delays: u64,
}

impl GroupAcc {
    pub open spec fn view(&self) -> Tally {
        Tally {
            count: self.count as int,
            budget_total: self.budget_total as int,
            cost_total: self.cost_total as int,
            savings_total: self.savings_total as int,
            savings: self.savings@,
            delay_total: self.delay_total as int,
            delay_count: self.delay_count as int,
            high_delays: self.high_delays as int,
        }
    }

    pub fn new() -> (r: GroupAcc)
        ensures
            r@ == empty_tally(),
    {
        GroupAcc {
            count: 0,
            budget_total: 0,
            cost_total: 0,
            savings_total: 0,
            savings: Vec::new(),
            delay_total: 0,
            delay_count: 0,
            high_delays: 0,
        }
    }

    /// Adds one member.
    pub fn add(&mut self, p: &Project)
        requires
            p.wf(),
            bounded(old(self)@),
            old(self)@.count < MAX_ROWS,
        ensures
            final(self)@ == add_project(old(self)@, *p),
            bounded(final(self)@),
    {
        let ghost t0 = self@;
        self.count = self.count + 1;
        if let Some(b) = p.approved_budget_for_contract {
            self.budget_total = self.budget_total + b as i128;
        }
        if let Some(c) = p.contract_cost {
            self.cost_total = self.cost_total + c as i128;
        }
        if let Some(s) = p.cost_savings {
            self.savings_total = self.savings_total + s as i128;
            self.savings.push(s);
        }
        if let Some(d) = p.completion_delay_days {
            self.delay_total = self.delay_total + d as i128;
            self.delay_count = self.delay_count + 1;
            if d > HIGH_DELAY_DAYS {
                self.high_delays = self.high_delays + 1;
            }
        }
        assert(self@.savings =~= add_project(t0, *p).savings);
        proof {
            let t1 = self@;
            assert(t1.count == t0.count + 1);
            assert(t0.count * MAX_SCALED + MAX_SCALED == t1.count * MAX_SCALED) by (nonlinear_arith)
                requires
                    t1.count == t0.count + 1,
            ;
            assert(t0.count * (2 * MAX_SCALED) + 2 * MAX_SCALED == t1.count * (2 * MAX_SCALED))
                by (nonlinear_arith)
                requires
                    t1.count == t0.count + 1,
            ;
            assert(t0.delay_count * MAX_DELAY + MAX_DELAY == (t0.delay_count + 1) * MAX_DELAY)
                by (nonlinear_arith)
            ;
        }
    }
}

/// One group: its key and its tally.
pub struct Group {
    pub key: GroupKey,
    pub acc: GroupAcc,
}

/// Groups the projects by their key under `kind`, in order of first appearance; projects
/// without a key are left out.
pub fn group_projects(ps: &Vec<Project>, kind: KeyKind) -> (r: Vec<Group>)
    requires
        ps@.len() <= MAX_ROWS,
        forall|i: int| 0 <= i < ps@.len() ==> (#[trigger] ps@[i]).wf(),
    ensures
        forall|g: int|
            0 <= g < r@.len() ==> (#[trigger] r@[g]).acc@ == tally(ps@, kind, r@[g].key@),
        forall|g: int| 0 <= g < r@.len() ==> bounded((#[trigger] r@[g]).acc@),
        forall|g: int| 0 <= g < r@.len() ==> (#[trigger] r@[g]).acc@.count >= 1,
        forall|g: int, h: int| 0 <= g < h < r@.len() ==> r@[g].key@ != r@[h].key@,
        forall|j: int|
            0 <= j < ps@.len() && (#[trigger] key_of(kind, ps@[j])) is Some ==> exists|g: int|
                0 <= g < r@.len() && key_of(kind, ps@[j]) == Some(r@[g].key@),
{
    let mut groups: Vec<Group> = Vec::new();
    let mut i: usize = 0;
    while i < ps.len()
        invariant
            i <= ps@.len() <= MAX_ROWS,
            forall|j: int| 0 <= j < ps@.len() ==> (#[trigger] ps@[j]).wf(),
            groups@.len() <= i,
            forall|g: int|
                0 <= g < groups@.len() ==> (#[trigger] groups@[g]).acc@ == tally(
                    ps@.subrange(0, i as int),
                    kind,
                    groups@[g].key@,
                ),
            forall|g: int| 0 <= g < groups@.len() ==> bounded((#[trigger] groups@[g]).acc@),
            forall|g: int| 0 <= g < groups@.len() ==> (#[trigger] groups@[g]).acc@.count >= 1,
            forall|g: int, h: int|
                0 <= g < h < groups@.len() ==> groups@[g].key@ != groups@[h].key@,
            forall|j: int|
                0 <= j < i && (#[trigger] key_of(kind, ps@[j])) is Some ==> exists|g: int|
                    0 <= g < groups@.len() && key_of(kind, ps@[j]) == Some(groups@[g].key@),
        decreases ps@.len() - i,
    {
        let p = &ps[i];
        let ghost pre = ps@.subrange(0, i as int);
        let ghost next = ps@.subrange(0, i + 1);
        assert(next.drop_last() =~= pre);
        assert(next.last() == ps@[i as int]);
        proof {
            lemma_tally_count(pre, kind);
        }
        match project_key(kind, p) {
            None => {
                assert forall|g: int| 0 <= g < groups@.len() implies (#[trigger] groups@[g]).acc@
                    == tally(next, kind, groups@[g].key@) by {}
            },
            Some(k) => {
                let mut g: usize = 0;
                let mut found = false;
                while g < groups.len() && !found
                    invariant
                        g <= groups@.len(),
                        found ==> g < groups@.len() && groups@[g as int].key@ == k@,
                        !found ==> forall|h: int| 0 <= h < g ==> groups@[h].key@ != k@,
                    decreases groups@.len() - g + if found { 0int } else { 1int },
                {
                    if same_key(&groups[g].key, &k) {
                        found = true;
                    } else {
                        g = g + 1;
                    }
                }
                let ghost old_groups = groups@;
                if found {
                    let mut grp = groups.remove(g);
                    assert(grp.acc@.count <= i) by {
                        lemma_tally_count(pre, kind);
                    }
                    grp.acc.add(p);
                    groups.insert(g, grp);
                    assert forall|h: int| 0 <= h < groups@.len() implies (#[trigger] groups@[h]).acc@
                        == tally(next, kind, groups@[h].key@) by {
                        if h != g {
                            assert(groups@[h] == old_groups[h]);
                        }
                    }
                    assert forall|h: int| 0 <= h < groups@.len() implies bounded(
                        (#[trigger] groups@[h]).acc@,
                    ) by {
                        if h != g {
                            assert(groups@[h] == old_groups[h]);
                        }
                    }
                    assert forall|h: int| 0 <= h < groups@.len() implies (#[trigger] groups@[h]).acc@.count
                        >= 1 by {
                        if h != g {
                            assert(groups@[h] == old_groups[h]);
                        }
                    }
                    assert forall|a: int, b: int| 0 <= a < b < groups@.len() implies groups@[a].key@
                        != groups@[b].key@ by {
                        assert(groups@[a].key@ == old_groups[a].key@);
                        assert(groups@[b].key@ == old_groups[b].key@);
                    }
                    assert forall|j: int|
                        0 <= j < i + 1 && (#[trigger] key_of(kind, ps@[j])) is Some implies exists|
                            h: int,
                        |
                            0 <= h < groups@.len() && key_of(kind, ps@[j]) == Some(
                                groups@[h].key@,
                            ) by {
                        if j < i {
                            let h = choose|h: int|
                                0 <= h < old_groups.len() && key_of(kind, ps@[j]) == Some(
                                    old_groups[h].key@,
                                );
                            assert(groups@[h].key@ == old_groups[h].key@);
                        } else {
                            assert(groups@[g as int].key@ == k@);
                        }
                    }
                } else {
                    let mut acc = GroupAcc::new();
                    proof {
                        lemma_tally_absent(pre, kind, k@);
                    }
                    acc.add(p);
                    groups.push(Group { key: k, acc });
                    assert forall|h: int| 0 <= h < groups@.len() implies (#[trigger] groups@[h]).acc@
                        == tally(next, kind, groups@[h].key@) by {
                        if h < old_groups.len() {
                            assert(groups@[h] == old_groups[h]);
                        }
                    }
                    assert forall|h: int| 0 <= h < groups@.len() implies bounded(
                        (#[trigger] groups@[h]).acc@,
                    ) by {
                        if h < old_groups.len() {
                            assert(groups@[h] == old_groups[h]);
                        }
                    }
                    assert forall|h: int| 0 <= h < groups@.len() implies (#[trigger] groups@[h]).acc@.count
                        >= 1 by {
                        if h < old_groups.len() {
                            assert(groups@[h] == old_groups[h]);
                        }
                    }
                    assert forall|a: int, b: int| 0 <= a < b < groups@.len() implies groups@[a].key@
                        != groups@[b].key@ by {
                        assert(groups@[a] == old_groups[a]);
                        if b < old_groups.len() {
                            assert(groups@[b] == old_groups[b]);
                        }
                    }
                    assert forall|j: int|
                        0 <= j < i + 1 && (#[trigger] key_of(kind, ps@[j])) is Some implies exists|
                            h: int,
                        |
                            0 <= h < groups@.len() && key_of(kind, ps@[j]) == Some(
                                groups@[h].key@,
                            ) by {
                        if j < i {
                            let h = choose|h: int|
                                0 <= h < old_groups.len() && key_of(kind, ps@[j]) == Some(
                                    old_groups[h].key@,
                                );
                            assert(groups@[h] == old_groups[h]);
                        } else {
                            assert(groups@[old_groups.len() as int].key@ == k@);
                        }
                    }
                }
            },
        }
        i = i + 1;
    }
    assert(ps@.subrange(0, ps@.len() as int) =~= ps@);
    groups
}

/// A group's count never exceeds the number of projects.
pub proof fn lemma_tally_count(ps: Seq<Project>, kind: KeyKind)
    ensures
        forall|k: (int, Seq<char>, Seq<char>)| #[trigger] tally(ps, kind, k).count <= ps.len(),
    decreases ps.len(),
{
    if ps.len() > 0 {
        lemma_tally_count(ps.drop_last(), kind);
        assert forall|k: (int, Seq<char>, Seq<char>)| #[trigger] tally(ps, kind, k).count
            <= ps.len() by {
            assert(tally(ps.drop_last(), kind, k).count <= ps.len() - 1);
        }
    }
}

/// A key with a member belongs to some project.
pub proof fn lemma_tally_member(ps: Seq<Project>, kind: KeyKind, k: (int, Seq<char>, Seq<char>))
    requires
        tally(ps, kind, k).count >= 1,
    ensures
        exists|j: int| 0 <= j < ps.len() && key_of(kind, #[trigger] ps[j]) == Some(k),
    decreases ps.len(),
{
    if key_of(kind, ps.last()) == Some(k) {
        assert(ps[ps.len() - 1] == ps.last());
    } else {
        lemma_tally_member(ps.drop_last(), kind, k);
        let j = choose|j: int| 0 <= j < ps.drop_last().len() && key_of(kind, #[trigger] ps.drop_last()[j]) == Some(k);
        assert(ps[j] == ps.drop_last()[j]);
    }
}

/// No project has the key: the tally is empty.
pub proof fn lemma_tally_absent(ps: Seq<Project>, kind: KeyKind, k: (int, Seq<char>, Seq<char>))
    requires
        forall|j: int| 0 <= j < ps.len() ==> key_of(kind, #[trigger] ps[j]) != Some(k),
    ensures
        tally(ps, kind, k) == empty_tally(),
    decreases ps.len(),
{
    if ps.len() > 0 {
        assert(ps.last() == ps[ps.len() - 1]);
        lemma_tally_absent(ps.drop_last(), kind, k);
    }
}

} // verus!
