//! Ordering of report rows: an integer then a text, the text compared character by character.
use vstd::prelude::*;
use vstd::string::*;

verus! {

/// `a` comes strictly before `b` in lexicographic order of code points (the order of
/// `str`'s `Ord`).
pub open spec fn text_before(a: Seq<char>, b: Seq<char>) -> bool
    decreases a.len(),
{
    if a.len() == 0 {
        b.len() > 0
    } else if b.len() == 0 {
        false
    } else if (a[0] as u32) < (b[0] as u32) {
        true
    } else if a[0] == b[0] {
        text_before(a.drop_first(), b.drop_first())
    } else {
        false
    }
}

proof fn lemma_text_before_trans(a: Seq<char>, b: Seq<char>, c: Seq<char>)
    requires
        text_before(a, b),
        text_before(b, c),
    ensures
        text_before(a, c),
    decreases a.len(),
{
    if a.len() > 0 && b.len() > 0 && c.len() > 0 && a[0] == b[0] && b[0] == c[0] {
        lemma_text_before_trans(a.drop_first(), b.drop_first(), c.drop_first());
    }
}

proof fn lemma_text_before_irreflexive(a: Seq<char>)
    ensures
        !text_before(a, a),
    decreases a.len(),
{
    if a.len() > 0 {
        lemma_text_before_irreflexive(a.drop_first());
    }
}

/// Whether `a` comes strictly before `b` in lexicographic order.
pub fn text_less(a: &str, b: &str) -> (r: bool)
    ensures
        r == text_before(a@, b@),
{
    let n = a.unicode_len();
    let m = b.unicode_len();
    let mut i: usize = 0;
    assert(a@.subrange(0, n as int) =~= a@);
    assert(b@.subrange(0, m as int) =~= b@);
    while i < n && i < m
        invariant
            n == a@.len(),
            m == b@.len(),
            i <= n,
            i <= m,
            text_before(a@, b@) == text_before(
                a@.subrange(i as int, n as int),
                b@.subrange(i as int, m as int),
            ),
        decreases n - i,
    {
        let x = a.get_char(i);
        let y = b.get_char(i);
        let ghost sa = a@.subrange(i as int, n as int);
        let ghost sb = b@.subrange(i as int, m as int);
        assert(sa[0] == x && sb[0] == y);
        if (x as u32) < (y as u32) {
            return true;
        }
        if x != y {
            return false;
        }
        assert(sa.drop_first() =~= a@.subrange(i + 1, n as int));
        assert(sb.drop_first() =~= b@.subrange(i + 1, m as int));
        i = i + 1;
    }
    i == n && i < m
}

/// A row's place in a report: ordered by `major`, then by `minor` text.
pub struct Rank {
    pub major: i128,
    pub minor: String,
}

impl Rank {
    pub open spec fn view(&self) -> (int, Seq<char>) {
        (self.major as int, self.minor@)
    }
}

/// `a` comes strictly before `b`.
pub open spec fn rank_before(a: (int, Seq<char>), b: (int, Seq<char>)) -> bool {
    a.0 < b.0 || (a.0 == b.0 && text_before(a.1, b.1))
}

proof fn lemma_rank_before_trans(a: (int, Seq<char>), b: (int, Seq<char>), c: (int, Seq<char>))
    requires
        rank_before(a, b),
        rank_before(b, c),
    ensures
        rank_before(a, c),
{
    if a.0 == b.0 && b.0 == c.0 {
        lemma_text_before_trans(a.1, b.1, c.1);
    }
}

/// Whether `a` comes strictly before `b`.
pub fn rank_less(a: &Rank, b: &Rank) -> (r: bool)
    ensures
        r == rank_before(a@, b@),
{
    a.major < b.major || (a.major == b.major && text_less(a.minor.as_str(), b.minor.as_str()))
}

/// No item of `s` comes strictly before an earlier one.
pub open spec fn in_rank_order<T>(s: Seq<(Rank, T)>) -> bool {
    forall|i: int, j: int| 0 <= i < j < s.len() ==> !rank_before(s[j].0@, s[i].0@)
}

/// `r` holds the items of `v` rearranged: `r[i]` is `v[perm[i]]`, each index of `v` used once.
pub open spec fn rearranges<A>(r: Seq<A>, v: Seq<A>, perm: Seq<int>) -> bool {
    &&& r.len() == v.len()
    &&& perm.len() == r.len()
    &&& forall|i: int| 0 <= i < r.len() ==> 0 <= #[trigger] perm[i] < v.len()
    &&& forall|i: int| 0 <= i < r.len() ==> r[i] == v[#[trigger] perm[i]]
    &&& forall|i: int, j: int| 0 <= i < j < r.len() ==> perm[i] != perm[j]
    &&& forall|j: int| 0 <= j < v.len() ==> #[trigger] hits(perm, j)
}

/// Some entry of `perm` is `j`.
pub open spec fn hits(perm: Seq<int>, j: int) -> bool {
    exists|i: int| 0 <= i < perm.len() && perm[i] == j
}

/// The items ordered by rank (an insertion sort).
pub fn sort_by_rank<T>(v: Vec<(Rank, T)>) -> (r: Vec<(Rank, T)>)
    ensures
        exists|perm: Seq<int>| rearranges(r@, v@, perm),
        in_rank_order(r@),
{
    let ghost orig = v@;
    let ghost n = orig.len() as int;
    let mut v = v;
    let mut r: Vec<(Rank, T)> = Vec::new();
    let ghost mut perm: Seq<int> = Seq::empty();
    while v.len() > 0
        invariant
            n == orig.len(),
            v@.len() <= n,
            v@ == orig.subrange(0, v@.len() as int),
            r@.len() == n - v@.len(),
            perm.len() == r@.len(),
            forall|i: int| 0 <= i < r@.len() ==> v@.len() <= #[trigger] perm[i] < n,
            forall|i: int| 0 <= i < r@.len() ==> r@[i] == orig[#[trigger] perm[i]],
            forall|i: int, j: int| 0 <= i < j < r@.len() ==> perm[i] != perm[j],
            forall|j: int| v@.len() <= j < n ==> #[trigger] hits(perm, j),
            in_rank_order(r@),
        decreases v@.len(),
    {
        let ghost k = v@.len() as int;
        let x = v.pop().unwrap();
        assert(x == orig[k - 1]);
        assert(v@ =~= orig.subrange(0, k - 1));
        let mut p: usize = 0;
        while p < r.len() && !rank_less(&x.0, &r[p].0)
            invariant
                p <= r@.len(),
                forall|j: int| 0 <= j < p ==> !rank_before(x.0@, r@[j].0@),
            decreases r@.len() - p,
        {
            p = p + 1;
        }
        let ghost before = r@;
        let ghost perm0 = perm;
        r.insert(p, x);
        proof {
            perm = perm0.insert(p as int, k - 1);
            assert forall|i: int| 0 <= i < r@.len() implies r@[i] == orig[#[trigger] perm[i]] by {
                if i < p {
                    assert(r@[i] == before[i] && perm[i] == perm0[i]);
                } else if i > p {
                    assert(r@[i] == before[i - 1] && perm[i] == perm0[i - 1]);
                }
            }
            assert forall|i: int| 0 <= i < r@.len() implies k - 1 <= #[trigger] perm[i] < n by {
                if i < p {
                    assert(perm[i] == perm0[i]);
                } else if i > p {
                    assert(perm[i] == perm0[i - 1]);
                }
            }
            assert forall|i: int, j: int| 0 <= i < j < r@.len() implies perm[i] != perm[j] by {
                if i != p && j != p {
                    let a = if i < p { i } else { i - 1 };
                    let b = if j < p { j } else { j - 1 };
                    assert(perm[i] == perm0[a] && perm[j] == perm0[b]);
                } else if i == p {
                    assert(perm[j] == perm0[j - 1]);
                } else {
                    assert(perm[i] == perm0[i]);
                }
            }
            assert forall|j: int| k - 1 <= j < n implies #[trigger] hits(perm, j) by {
                if j == k - 1 {
                    assert(perm[p as int] == j);
                } else {
                    assert(hits(perm0, j));
                    let i = choose|i: int| 0 <= i < perm0.len() && perm0[i] == j;
                    if i < p {
                        assert(perm[i] == j);
                    } else {
                        assert(perm[i + 1] == j);
                    }
                }
            }
            assert forall|a: int, b: int| 0 <= a < b < r@.len() implies !rank_before(
                r@[b].0@,
                r@[a].0@,
            ) by {
                if b < p {
                    assert(r@[a] == before[a] && r@[b] == before[b]);
                } else if b == p {
                    assert(r@[a] == before[a]);
                } else if a == p {
                    assert(r@[b] == before[b - 1]);
                    assert(rank_before(x.0@, before[p as int].0@));
                    if b - 1 > p {
                        assert(!rank_before(before[b - 1].0@, before[p as int].0@));
                    }
                    if rank_before(before[b - 1].0@, x.0@) {
                        lemma_rank_before_trans(before[b - 1].0@, x.0@, before[p as int].0@);
                        if b - 1 == p {
                            lemma_text_before_irreflexive(before[p as int].0@.1);
                        }
                    }
                } else if a < p {
                    assert(r@[a] == before[a] && r@[b] == before[b - 1]);
                } else {
                    assert(r@[a] == before[a - 1] && r@[b] == before[b - 1]);
                }
            }
        }
    }
    assert(rearranges(r@, orig, perm));
    r
}

/// The items without their ranks, in the same order.
pub fn without_ranks<T>(v: Vec<(Rank, T)>) -> (r: Vec<T>)
    ensures
        r@.len() == v@.len(),
        forall|i: int| 0 <= i < r@.len() ==> r@[i] == v@[i].1,
{
    let ghost orig = v@;
    let mut v = v;
    let mut r: Vec<T> = Vec::new();
    while v.len() > 0
        invariant
            v@.len() <= orig.len(),
            v@ == orig.subrange(0, v@.len() as int),
            r@.len() == orig.len() - v@.len(),
            forall|i: int| 0 <= i < r@.len() ==> r@[i] == orig[v@.len() + i].1,
        decreases v@.len(),
    {
        let ghost k = v@.len() as int;
        let x = v.pop().unwrap();
        r.insert(0, x.1);
        assert(v@ =~= orig.subrange(0, k - 1));
    }
    r
}

} // verus!
