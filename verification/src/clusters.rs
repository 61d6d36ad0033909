//! Complete-linkage clustering over the elements `0..n`.
//!
//! A `Clusters` value keeps a partition of the elements: `members[c]` lists
//! the elements of cluster `c` and `index[i]` names the cluster of `i`.
//! Clusters only ever merge when every pair across them passes a test
//! (`try_merge`), or unconditionally (`force_merge`); single elements can be
//! split off again (`evict`).

use vstd::prelude::*;

verus! {

/// The abstract state of a clustering.
#[verifier::ext_equal]
pub struct Partition {
    pub members: Seq<Seq<usize>>,
    pub index: Seq<usize>,
}

/// A test on ordered pairs of elements, defined for elements below `spec_size()`.
pub trait PairRule {
    spec fn spec_size(&self) -> nat;

    spec fn spec_holds(&self, a: usize, b: usize) -> bool;

    fn holds(&self, a: usize, b: usize) -> (r: bool)
        requires
            (a as nat) < self.spec_size(),
            (b as nat) < self.spec_size(),
        ensures
            r == self.spec_holds(a, b),
    ;
}

/// `s` without the occurrences of `m`, order kept (`Vec::retain(|&x| x != m)`).
pub open spec fn drop_value(s: Seq<usize>, m: usize) -> Seq<usize>
    decreases s.len(),
{
    if s.len() == 0 {
        s
    } else {
        let r = drop_value(s.drop_last(), m);
        if s.last() == m {
            r
        } else {
            r.push(s.last())
        }
    }
}

/// Index `from` replaced by `to` throughout.
pub open spec fn relabel(index: Seq<usize>, from: usize, to: usize) -> Seq<usize> {
    Seq::new(index.len(), |i: int| if index[i] == from { to } else { index[i] })
}

/// Every element of `xs` paired with every element of `ys` passes `rule`.
pub open spec fn all_pairs_hold<R: PairRule>(rule: &R, xs: Seq<usize>, ys: Seq<usize>) -> bool {
    forall|x: int, y: int|
        0 <= x < xs.len() && 0 <= y < ys.len() ==> #[trigger] rule.spec_holds(xs[x], ys[y])
}

impl Partition {
    /// Every element lies in exactly one cluster, exactly once, and the index
    /// agrees with the member lists.
    pub open spec fn wf(self) -> bool {
        &&& self.index.len() <= usize::MAX
        &&& forall|i: int| 0 <= i < self.index.len() ==> (#[trigger] self.index[i]) < self.members.len()
        &&& forall|i: int|
            0 <= i < self.index.len() ==> #[trigger] self.members[self.index[i] as int].contains(
                i as usize,
            )
        &&& forall|c: int, k: int|
            0 <= c < self.members.len() && 0 <= k < self.members[c].len() ==> (#[trigger] self.members[c][k])
                < self.index.len() && self.index[self.members[c][k] as int] == c
        &&& forall|c: int| 0 <= c < self.members.len() ==> (#[trigger] self.members[c]).no_duplicates()
    }

    /// Every element in a cluster of its own.
    pub open spec fn singletons(n: nat) -> Partition {
        Partition {
            members: Seq::new(n, |i: int| seq![i as usize]),
            index: Seq::new(n, |i: int| i as usize),
        }
    }

    /// Cluster `from` appended to cluster `into`; `from` left empty.
    pub open spec fn absorb(self, into: usize, from: usize) -> Partition {
        Partition {
            members: self.members.update(into as int, self.members[into as int] + self.members[from as int]).update(
                from as int,
                Seq::<usize>::empty(),
            ),
            index: relabel(self.index, from, into),
        }
    }

    /// The clusters of `a` and `b` joined unconditionally, the cluster of `b`
    /// moving into that of `a`.
    pub open spec fn force_merged(self, a: usize, b: usize) -> Partition {
        let ca = self.index[a as int];
        let cb = self.index[b as int];
        if ca == cb {
            self
        } else {
            self.absorb(ca, cb)
        }
    }

    /// Of the clusters of `a` and `b`: the one that moves (the smaller, or
    /// that of `a` on a tie) and the one that receives.
    pub open spec fn merge_roles(self, a: usize, b: usize) -> (usize, usize) {
        let ca = self.index[a as int];
        let cb = self.index[b as int];
        if self.members[ca as int].len() <= self.members[cb as int].len() {
            (ca, cb)
        } else {
            (cb, ca)
        }
    }

    /// Whether complete linkage lets the clusters of `a` and `b` join: they
    /// differ, and every element of the moving cluster, paired with every
    /// element of the receiving one, passes the rule.
    pub open spec fn can_merge<R: PairRule>(self, a: usize, b: usize, rule: &R) -> bool {
        let (small, large) = self.merge_roles(a, b);
        &&& self.index[a as int] != self.index[b as int]
        &&& all_pairs_hold(rule, self.members[small as int], self.members[large as int])
    }

    /// The clustering after `try_merge(a, b, rule)`.
    pub open spec fn try_merged<R: PairRule>(self, a: usize, b: usize, rule: &R) -> Partition {
        let (small, large) = self.merge_roles(a, b);
        if self.can_merge(a, b, rule) {
            self.absorb(large, small)
        } else {
            self
        }
    }

    /// The clustering after `evict(m)`: unless its cluster holds nothing
    /// else, `m` leaves it and forms a new cluster at the end.
    pub open spec fn evicted(self, m: usize) -> Partition {
        let c = self.index[m as int];
        if self.members[c as int].len() <= 1 {
            self
        } else {
            Partition {
                members: self.members.update(c as int, drop_value(self.members[c as int], m)).push(seq![m]),
                index: self.index.update(m as int, self.members.len() as usize),
            }
        }
    }

    /// The clusters of two or more elements, each listed once, in the order
    /// in which the elements `0..k` first reach them.
    pub open spec fn groups_upto(self, k: nat) -> Seq<Seq<usize>>
        decreases k,
    {
        if k == 0 {
            Seq::empty()
        } else {
            let prev = self.groups_upto((k - 1) as nat);
            let c = self.index[k - 1];
            if self.members[c as int].len() >= 2 && !self.index.take(k - 1).contains(c) {
                prev.push(self.members[c as int])
            } else {
                prev
            }
        }
    }

    /// The clusters of two or more elements (`get_groups`).
    pub open spec fn groups(self) -> Seq<Seq<usize>> {
        self.groups_upto(self.index.len())
    }

    /// Every cluster passes `rule` on each ordered pair of distinct members.
    pub open spec fn cliques<R: PairRule>(self, rule: &R) -> bool {
        forall|c: int, x: int, y: int|
            0 <= c < self.members.len() && 0 <= x < self.members[c].len() && 0 <= y < self.members[c].len()
                && x != y ==> #[trigger] rule.spec_holds(self.members[c][x], self.members[c][y])
    }
}

/// A rule that gives the same answer for `(a, b)` as for `(b, a)`.
pub open spec fn symmetric<R: PairRule>(rule: &R) -> bool {
    forall|a: usize, b: usize| #[trigger] rule.spec_holds(a, b) == rule.spec_holds(b, a)
}

/// Membership in a list and in the same list without its last element.
pub proof fn lemma_contains_last<T>(s: Seq<T>)
    requires
        s.len() > 0,
    ensures
        forall|x: T| #[trigger] s.contains(x) <==> (s.drop_last().contains(x) || x == s.last()),
{
    let t = s.drop_last();
    assert forall|x: T| #[trigger] s.contains(x) <==> (t.contains(x) || x == s.last()) by {
        if s.contains(x) {
            let k = choose|k: int| 0 <= k < s.len() && s[k] == x;
            if k < s.len() - 1 {
                assert(t[k] == x);
            }
        }
        if t.contains(x) {
            let k = choose|k: int| 0 <= k < t.len() && t[k] == x;
            assert(s[k] == x);
        }
        if x == s.last() {
            assert(s[s.len() - 1] == x);
        }
    }
}

/// Membership after appending one element.
pub proof fn lemma_contains_push<T>(s: Seq<T>, v: T)
    ensures
        forall|x: T| #[trigger] s.push(v).contains(x) <==> (s.contains(x) || x == v),
{
    let q = s.push(v);
    assert(q.drop_last() =~= s);
    lemma_contains_last(q);
}

pub proof fn lemma_drop_value(s: Seq<usize>, m: usize)
    ensures
        forall|x: usize| #[trigger] drop_value(s, m).contains(x) <==> (s.contains(x) && x != m),
        s.no_duplicates() ==> drop_value(s, m).no_duplicates(),
        drop_value(s, m).len() <= s.len(),
        !s.contains(m) ==> drop_value(s, m) == s,
        s.no_duplicates() && s.contains(m) ==> drop_value(s, m).len() == s.len() - 1,
    decreases s.len(),
{
    if s.len() > 0 {
        let t = s.drop_last();
        lemma_drop_value(t, m);
        lemma_contains_last(s);
        let r = drop_value(t, m);
        lemma_contains_push(r, s.last());
        if s.no_duplicates() {
            assert(t.no_duplicates());
            if s.last() != m {
                assert(!t.contains(s.last())) by {
                    if t.contains(s.last()) {
                        let j = choose|j: int| 0 <= j < t.len() && t[j] == s.last();
                        assert(s[j] == s[s.len() - 1]);
                    }
                }
                assert(!r.contains(s.last()));
                assert(r.push(s.last()).no_duplicates()) by {
                    assert forall|i: int, j: int|
                        0 <= i < r.len() + 1 && 0 <= j < r.len() + 1 && i != j implies r.push(s.last())[i]
                        != r.push(s.last())[j] by {
                        if i < r.len() && j < r.len() {
                        } else if i == r.len() {
                            assert(r[j] == r.push(s.last())[j]);
                        } else {
                            assert(r[i] == r.push(s.last())[i]);
                        }
                    }
                }
            }
        }
        if !s.contains(m) {
            assert(s.last() != m);
            assert(t.push(s.last()) =~= s);
        }
        if s.no_duplicates() && s.contains(m) {
            assert(t.no_duplicates());
            if s.last() == m {
                assert(!t.contains(m)) by {
                    if t.contains(m) {
                        let j = choose|j: int| 0 <= j < t.len() && t[j] == m;
                        assert(s[j] == s[s.len() - 1]);
                    }
                }
            } else {
                assert(t.contains(m));
            }
        }
    }
}

/// Two duplicate-free lists with nothing in common concatenate to a
/// duplicate-free list.
pub proof fn lemma_concat_no_duplicates(a: Seq<usize>, b: Seq<usize>)
    requires
        a.no_duplicates(),
        b.no_duplicates(),
        forall|i: int, j: int| 0 <= i < a.len() && 0 <= j < b.len() ==> a[i] != b[j],
    ensures
        (a + b).no_duplicates(),
{
    let s = a + b;
    assert forall|i: int, j: int| 0 <= i < s.len() && 0 <= j < s.len() && i != j implies s[i] != s[j] by {
        if i < a.len() && j < a.len() {
        } else if i >= a.len() && j >= a.len() {
            assert(s[i] == b[i - a.len()]);
            assert(s[j] == b[j - a.len()]);
        } else if i < a.len() {
            assert(s[j] == b[j - a.len()]);
        } else {
            assert(s[i] == b[i - a.len()]);
        }
    }
}

/// Moving one cluster into another keeps the partition well formed.
pub proof fn lemma_absorb_wf(p: Partition, into: usize, from: usize)
    requires
        p.wf(),
        into != from,
        (into as int) < p.members.len(),
        (from as int) < p.members.len(),
    ensures
        p.absorb(into, from).wf(),
        p.absorb(into, from).index.len() == p.index.len(),
        p.absorb(into, from).members.len() == p.members.len(),
{
    let q = p.absorb(into, from);
    let a = p.members[into as int];
    let b = p.members[from as int];
    assert forall|i: int| 0 <= i < q.index.len() implies #[trigger] q.members[q.index[i] as int].contains(
        i as usize,
    ) by {
        let c = p.index[i];
        assert(p.members[c as int].contains(i as usize));
        if c == from {
            let k = choose|k: int| 0 <= k < b.len() && b[k] == i as usize;
            assert((a + b)[a.len() + k] == i as usize);
        } else if c == into {
            let k = choose|k: int| 0 <= k < a.len() && a[k] == i as usize;
            assert((a + b)[k] == i as usize);
        }
    }
    assert forall|c: int, k: int|
        0 <= c < q.members.len() && 0 <= k < q.members[c].len() implies (#[trigger] q.members[c][k])
        < q.index.len() && q.index[q.members[c][k] as int] == c by {
        if c == into {
            if k < a.len() {
                assert(q.members[c][k] == p.members[into as int][k]);
            } else {
                assert(q.members[c][k] == p.members[from as int][k - a.len()]);
            }
        } else {
            assert(q.members[c][k] == p.members[c][k]);
        }
    }
    assert forall|c: int| 0 <= c < q.members.len() implies (#[trigger] q.members[c]).no_duplicates() by {
        if c == into {
            assert forall|i: int, j: int| 0 <= i < a.len() && 0 <= j < b.len() implies a[i] != b[j] by {
                assert(p.index[a[i] as int] == into);
                assert(p.index[b[j] as int] == from);
            }
            lemma_concat_no_duplicates(a, b);
        } else if c != from {
            assert(q.members[c] == p.members[c]);
        }
    }
}

/// Splitting one element off into a new cluster keeps the partition well formed.
pub proof fn lemma_evicted_wf(p: Partition, m: usize)
    requires
        p.wf(),
        (m as int) < p.index.len(),
        p.members.len() < usize::MAX,
    ensures
        p.evicted(m).wf(),
        p.evicted(m).index.len() == p.index.len(),
{
    let c = p.index[m as int];
    if p.members[c as int].len() > 1 {
        let q = p.evicted(m);
        let old_c = p.members[c as int];
        let nc = p.members.len();
        lemma_drop_value(old_c, m);
        assert forall|i: int| 0 <= i < q.index.len() implies #[trigger] q.members[q.index[i] as int].contains(
            i as usize,
        ) by {
            if i == m as int {
                assert(q.members[nc as int] == seq![m]);
                assert(q.members[nc as int][0] == m);
            } else {
                let ci = p.index[i];
                assert(p.members[ci as int].contains(i as usize));
                if ci == c {
                    assert(drop_value(old_c, m).contains(i as usize));
                } else {
                    assert(q.members[ci as int] == p.members[ci as int]);
                }
            }
        }
        assert forall|d: int, k: int|
            0 <= d < q.members.len() && 0 <= k < q.members[d].len() implies (#[trigger] q.members[d][k])
            < q.index.len() && q.index[q.members[d][k] as int] == d by {
            if d == nc {
                assert(q.members[d] == seq![m]);
            } else if d == c {
                let x = q.members[d][k];
                assert(drop_value(old_c, m).contains(x));
                let j = choose|j: int| 0 <= j < old_c.len() && old_c[j] == x;
                assert(p.members[c as int][j] == x);
            } else {
                assert(q.members[d][k] == p.members[d][k]);
                assert(p.index[p.members[d][k] as int] == d);
                assert(p.members[d][k] != m);
            }
        }
        assert forall|d: int| 0 <= d < q.members.len() implies (#[trigger] q.members[d]).no_duplicates() by {
            if d == nc {
                assert(q.members[d] == seq![m]);
            } else if d == c {
            } else {
                assert(q.members[d] == p.members[d]);
            }
        }
    }
}

/// The singleton clustering is well formed.
pub proof fn lemma_singletons_wf(n: nat)
    requires
        n <= usize::MAX,
    ensures
        Partition::singletons(n).wf(),
{
    let p = Partition::singletons(n);
    assert forall|i: int| 0 <= i < p.index.len() implies #[trigger] p.members[p.index[i] as int].contains(
        i as usize,
    ) by {
        assert(p.members[i][0] == i as usize);
    }
    assert forall|c: int, k: int|
        0 <= c < p.members.len() && 0 <= k < p.members[c].len() implies (#[trigger] p.members[c][k])
        < p.index.len() && p.index[p.members[c][k] as int] == c by {
        assert(p.members[c] == seq![c as usize]);
    }
    assert forall|c: int| 0 <= c < p.members.len() implies (#[trigger] p.members[c]).no_duplicates() by {
        assert(p.members[c] == seq![c as usize]);
    }
}

/// The cluster numbers behind `groups_upto(k)`, in the same order.
pub open spec fn group_ids_upto(p: Partition, k: nat) -> Seq<usize>
    decreases k,
{
    if k == 0 {
        Seq::empty()
    } else {
        let prev = group_ids_upto(p, (k - 1) as nat);
        let c = p.index[k - 1];
        if p.members[c as int].len() >= 2 && !p.index.take(k - 1).contains(c) {
            prev.push(c)
        } else {
            prev
        }
    }
}

proof fn lemma_group_ids(p: Partition, k: nat)
    requires
        p.wf(),
        k <= p.index.len(),
    ensures
        group_ids_upto(p, k).len() == p.groups_upto(k).len(),
        forall|g: int| 0 <= g < group_ids_upto(p, k).len() ==> {
            &&& (#[trigger] group_ids_upto(p, k)[g]) < p.members.len()
            &&& p.groups_upto(k)[g] == p.members[group_ids_upto(p, k)[g] as int]
            &&& p.members[group_ids_upto(p, k)[g] as int].len() >= 2
            &&& p.index.take(k as int).contains(group_ids_upto(p, k)[g])
        },
        group_ids_upto(p, k).no_duplicates(),
        forall|i: int|
            0 <= i < k && p.members[p.index[i] as int].len() >= 2 ==> #[trigger] group_ids_upto(p, k).contains(
                p.index[i],
            ),
    decreases k,
{
    if k > 0 {
        let km = (k - 1) as nat;
        lemma_group_ids(p, km);
        let ids = group_ids_upto(p, km);
        let c = p.index[km as int];
        let t0 = p.index.take(km as int);
        let t1 = p.index.take(k as int);
        assert(t1.drop_last() =~= t0);
        lemma_contains_last(t1);
        let added = p.members[c as int].len() >= 2 && !t0.contains(c);
        if added {
            lemma_contains_push(ids, c);
            assert(!ids.contains(c));
            let nids = ids.push(c);
            assert(nids.no_duplicates()) by {
                assert forall|x: int, y: int| 0 <= x < nids.len() && 0 <= y < nids.len() && x != y implies nids[x]
                    != nids[y] by {
                    if x == ids.len() as int {
                        assert(ids.contains(nids[y]));
                    } else if y == ids.len() as int {
                        assert(ids.contains(nids[x]));
                    }
                }
            }
        }
        assert forall|i: int|
            0 <= i < k && p.members[p.index[i] as int].len() >= 2 implies #[trigger] group_ids_upto(p, k).contains(
            p.index[i],
        ) by {
            if i < km {
                assert(ids.contains(p.index[i]));
                if added {
                    lemma_contains_push(ids, c);
                }
            } else {
                if added {
                    lemma_contains_push(ids, c);
                } else {
                    assert(t0.contains(c));
                    let j = choose|j: int| 0 <= j < t0.len() && t0[j] == c;
                    assert(p.index[j] == c);
                    assert(ids.contains(p.index[j]));
                }
            }
        }
        assert forall|g: int| 0 <= g < group_ids_upto(p, k).len() implies p.index.take(k as int).contains(
            #[trigger] group_ids_upto(p, k)[g],
        ) by {
            if g < ids.len() {
                assert(t0.contains(ids[g]));
            } else {
                assert(t1[km as int] == c);
            }
        }
    }
}

/// The groups are the clusters of two or more elements: each group is a
/// whole cluster, no element lies in two groups, and every element whose
/// cluster holds two or more elements lies in a group.
pub proof fn lemma_groups_partition(p: Partition)
    requires
        p.wf(),
    ensures
        forall|g: int| 0 <= g < p.groups().len() ==> (#[trigger] p.groups()[g]).len() >= 2,
        forall|g: int, x: int|
            0 <= g < p.groups().len() && 0 <= x < p.groups()[g].len() ==> (#[trigger] p.groups()[g][x]) < p.index.len()
                && p.members[p.index[p.groups()[g][x] as int] as int] == p.groups()[g],
        forall|g1: int, g2: int, x: int, y: int|
            0 <= g1 < p.groups().len() && 0 <= g2 < p.groups().len() && g1 != g2 && 0 <= x < p.groups()[g1].len()
                && 0 <= y < p.groups()[g2].len() ==> #[trigger] p.groups()[g1][x] != #[trigger] p.groups()[g2][y],
        forall|i: int|
            0 <= i < p.index.len() && p.members[p.index[i] as int].len() >= 2 ==> exists|g: int|
                0 <= g < p.groups().len() && #[trigger] p.groups()[g].contains(i as usize),
{
    let n = p.index.len();
    lemma_group_ids(p, n);
    let ids = group_ids_upto(p, n);
    assert forall|g: int| 0 <= g < p.groups().len() implies (#[trigger] p.groups()[g]).len() >= 2 by {
        assert(ids[g] < p.members.len());
    }
    assert forall|g: int, x: int|
        0 <= g < p.groups().len() && 0 <= x < p.groups()[g].len() implies (#[trigger] p.groups()[g][x])
        < p.index.len() && p.members[p.index[p.groups()[g][x] as int] as int] == p.groups()[g] by {
        assert(ids[g] < p.members.len());
        assert(p.members[ids[g] as int][x] == p.groups()[g][x]);
    }
    assert forall|g1: int, g2: int, x: int, y: int|
        0 <= g1 < p.groups().len() && 0 <= g2 < p.groups().len() && g1 != g2 && 0 <= x < p.groups()[g1].len() && 0
            <= y < p.groups()[g2].len() implies #[trigger] p.groups()[g1][x] != #[trigger] p.groups()[g2][y] by {
        assert(ids[g1] < p.members.len());
        assert(ids[g2] < p.members.len());
        assert(p.members[ids[g1] as int][x] == p.groups()[g1][x]);
        assert(p.members[ids[g2] as int][y] == p.groups()[g2][y]);
        assert(ids[g1] != ids[g2]);
    }
    assert forall|i: int|
        0 <= i < p.index.len() && p.members[p.index[i] as int].len() >= 2 implies exists|g: int|
        0 <= g < p.groups().len() && #[trigger] p.groups()[g].contains(i as usize) by {
        assert(ids.contains(p.index[i]));
        let g = choose|g: int| 0 <= g < ids.len() && ids[g] == p.index[i];
        assert(p.groups()[g] == p.members[p.index[i] as int]);
        assert(p.members[p.index[i] as int].contains(i as usize));
    }
}

/// Complete linkage: with a rule that does not depend on the order of its
/// two arguments, a merge attempt keeps every cluster a clique of the rule.
pub proof fn lemma_try_merged_keeps_cliques<R: PairRule>(p: Partition, a: usize, b: usize, rule: &R)
    requires
        p.wf(),
        (a as int) < p.index.len(),
        (b as int) < p.index.len(),
        symmetric(rule),
        p.cliques(rule),
    ensures
        p.try_merged(a, b, rule).cliques(rule),
{
    if p.can_merge(a, b, rule) {
        let (small, large) = p.merge_roles(a, b);
        let q = p.try_merged(a, b, rule);
        let l = p.members[large as int];
        let s = p.members[small as int];
        assert forall|c: int, x: int, y: int|
            0 <= c < q.members.len() && 0 <= x < q.members[c].len() && 0 <= y < q.members[c].len() && x != y
                implies #[trigger] rule.spec_holds(q.members[c][x], q.members[c][y]) by {
            if c == large as int {
                if x < l.len() && y < l.len() {
                    assert(q.members[c][x] == l[x] && q.members[c][y] == l[y]);
                } else if x >= l.len() && y >= l.len() {
                    assert(q.members[c][x] == s[x - l.len()] && q.members[c][y] == s[y - l.len()]);
                    assert(rule.spec_holds(p.members[small as int][x - l.len()], p.members[small as int][y - l.len()]));
                } else if x < l.len() {
                    assert(q.members[c][x] == l[x] && q.members[c][y] == s[y - l.len()]);
                    assert(rule.spec_holds(s[y - l.len()], l[x]));
                    assert(rule.spec_holds(l[x], s[y - l.len()]) == rule.spec_holds(s[y - l.len()], l[x]));
                } else {
                    assert(q.members[c][x] == s[x - l.len()] && q.members[c][y] == l[y]);
                    assert(rule.spec_holds(s[x - l.len()], l[y]));
                }
            } else if c != small as int {
                assert(q.members[c] == p.members[c]);
            }
        }
    }
}

/// Splitting an element off keeps every cluster a clique of any rule it
/// was a clique of.
pub proof fn lemma_evicted_keeps_cliques<R: PairRule>(p: Partition, m: usize, rule: &R)
    requires
        p.wf(),
        (m as int) < p.index.len(),
        p.cliques(rule),
    ensures
        p.evicted(m).cliques(rule),
{
    let c = p.index[m as int];
    if p.members[c as int].len() > 1 {
        let q = p.evicted(m);
        let old_c = p.members[c as int];
        lemma_drop_value(old_c, m);
        assert forall|d: int, x: int, y: int|
            0 <= d < q.members.len() && 0 <= x < q.members[d].len() && 0 <= y < q.members[d].len() && x != y
                implies #[trigger] rule.spec_holds(q.members[d][x], q.members[d][y]) by {
            if d == c as int {
                let vx = q.members[d][x];
                let vy = q.members[d][y];
                assert(drop_value(old_c, m).contains(vx));
                assert(drop_value(old_c, m).contains(vy));
                let i = choose|i: int| 0 <= i < old_c.len() && old_c[i] == vx;
                let j = choose|j: int| 0 <= j < old_c.len() && old_c[j] == vy;
                assert(vx != vy);
                assert(rule.spec_holds(p.members[c as int][i], p.members[c as int][j]));
            } else if d < p.members.len() {
                assert(q.members[d] == p.members[d]);
            } else {
                assert(q.members[d] == seq![m]);
            }
        }
    }
}

/// Whether `m` passes `rule` against every element of `sub`.
pub open spec fn fits_all<R: PairRule>(rule: &R, sub: Seq<usize>, m: usize) -> bool {
    forall|e: int| 0 <= e < sub.len() ==> #[trigger] rule.spec_holds(m, sub[e])
}

/// The first of the first `upto` subgroups that `m` fits, if any.
pub open spec fn first_fit<R: PairRule>(rule: &R, subs: Seq<Seq<usize>>, m: usize, upto: nat) -> Option<nat>
    decreases upto,
{
    if upto == 0 {
        None
    } else {
        match first_fit(rule, subs, m, (upto - 1) as nat) {
            Some(s) => Some(s),
            None => if fits_all(rule, subs[upto - 1], m) {
                Some((upto - 1) as nat)
            } else {
                None
            },
        }
    }
}

pub proof fn lemma_first_fit<R: PairRule>(rule: &R, subs: Seq<Seq<usize>>, m: usize, upto: nat)
    ensures
        match first_fit(rule, subs, m, upto) {
            Some(s) => s < upto && fits_all(rule, subs[s as int], m) && forall|t: int|
                0 <= t < s ==> !#[trigger] fits_all(rule, subs[t], m),
            None => forall|t: int| 0 <= t < upto ==> !#[trigger] fits_all(rule, subs[t], m),
        },
    decreases upto,
{
    if upto > 0 {
        lemma_first_fit(rule, subs, m, (upto - 1) as nat);
    }
}

/// `m` added to the first subgroup it fits, or to a new subgroup of its own.
pub open spec fn placed<R: PairRule>(rule: &R, subs: Seq<Seq<usize>>, m: usize) -> Seq<Seq<usize>> {
    match first_fit(rule, subs, m, subs.len()) {
        Some(s) => subs.update(s as int, subs[s as int].push(m)),
        None => subs.push(seq![m]),
    }
}

/// Greedy subgrouping: the elements of `ms` placed one after the other.
pub open spec fn greedy_subgroups<R: PairRule>(rule: &R, ms: Seq<usize>) -> Seq<Seq<usize>>
    decreases ms.len(),
{
    if ms.len() == 0 {
        Seq::empty()
    } else {
        placed(rule, greedy_subgroups(rule, ms.drop_last()), ms.last())
    }
}

/// `subs` divides `whole`: at least one subgroup, every subgroup repeat-free
/// and drawn from `whole`, every element of `whole` in a subgroup, and no
/// element in two.
pub open spec fn splits(subs: Seq<Seq<usize>>, whole: Seq<usize>) -> bool {
    &&& subs.len() >= 1
    &&& forall|k: int| 0 <= k < subs.len() ==> (#[trigger] subs[k]).no_duplicates()
    &&& forall|k: int, j: int| 0 <= k < subs.len() && 0 <= j < subs[k].len() ==> whole.contains(#[trigger] subs[k][j])
    &&& forall|x: usize| #[trigger] whole.contains(x) ==> exists|k: int| 0 <= k < subs.len() && #[trigger] subs[k].contains(x)
    &&& forall|k1: int, k2: int, x: usize|
        0 <= k1 < subs.len() && 0 <= k2 < subs.len() && k1 != k2 ==> !(#[trigger] subs[k1].contains(x)
            && #[trigger] subs[k2].contains(x))
}

/// Each subgroup passes the rule from every later member to every earlier one.
pub open spec fn subgroups_fit<R: PairRule>(rule: &R, subs: Seq<Seq<usize>>) -> bool {
    forall|k: int, a: int, b: int|
        0 <= k < subs.len() && 0 <= a < b < subs[k].len() ==> #[trigger] rule.spec_holds(subs[k][b], subs[k][a])
}

/// Greedy subgrouping divides a repeat-free list, and every subgroup fits.
pub proof fn lemma_greedy_subgroups<R: PairRule>(rule: &R, ms: Seq<usize>)
    requires
        ms.no_duplicates(),
    ensures
        ms.len() >= 1 ==> splits(greedy_subgroups(rule, ms), ms),
        ms.len() == 0 ==> greedy_subgroups(rule, ms).len() == 0,
        subgroups_fit(rule, greedy_subgroups(rule, ms)),
        forall|k: int| 0 <= k < greedy_subgroups(rule, ms).len() ==> (#[trigger] greedy_subgroups(rule, ms)[k]).len()
            >= 1,
    decreases ms.len(),
{
    if ms.len() > 0 {
        let t = ms.drop_last();
        let m = ms.last();
        assert(t.no_duplicates());
        lemma_greedy_subgroups(rule, t);
        let prev = greedy_subgroups(rule, t);
        let subs = greedy_subgroups(rule, ms);
        assert(subs == placed(rule, prev, m));
        lemma_contains_last(ms);
        assert(!t.contains(m)) by {
            if t.contains(m) {
                let j = choose|j: int| 0 <= j < t.len() && t[j] == m;
                assert(ms[j] == ms[ms.len() - 1]);
            }
        }
        assert forall|k: int| 0 <= k < prev.len() implies !(#[trigger] prev[k]).contains(m) by {
            if prev[k].contains(m) {
                let j = choose|j: int| 0 <= j < prev[k].len() && prev[k][j] == m;
                assert(t.contains(prev[k][j]));
            }
        }
        lemma_first_fit(rule, prev, m, prev.len());
        match first_fit(rule, prev, m, prev.len()) {
            Some(s) => {
                let si = s as int;
                lemma_contains_push(prev[si], m);
                assert forall|k: int| 0 <= k < subs.len() implies (#[trigger] subs[k]).no_duplicates() by {
                    if k == si {
                        let nk = prev[si].push(m);
                        assert forall|a: int, b: int| 0 <= a < nk.len() && 0 <= b < nk.len() && a != b implies nk[a]
                            != nk[b] by {
                            if a == prev[si].len() as int {
                                assert(prev[si].contains(nk[b]));
                            } else if b == prev[si].len() as int {
                                assert(prev[si].contains(nk[a]));
                            }
                        }
                    }
                }
                assert forall|k: int, j: int| 0 <= k < subs.len() && 0 <= j < subs[k].len() implies ms.contains(
                    #[trigger] subs[k][j],
                ) by {
                    if k == si && j == prev[si].len() as int {
                        assert(subs[k][j] == m);
                    } else {
                        assert(subs[k][j] == prev[k][j]);
                        if t.len() > 0 {
                            assert(t.contains(prev[k][j]));
                        }
                    }
                }
                assert forall|x: usize| #[trigger] ms.contains(x) implies exists|k: int|
                    0 <= k < subs.len() && #[trigger] subs[k].contains(x) by {
                    if x == m {
                        assert(subs[si].contains(x));
                    } else {
                        assert(t.contains(x));
                        let k = choose|k: int| 0 <= k < prev.len() && #[trigger] prev[k].contains(x);
                        if k == si {
                            assert(subs[k].contains(x));
                        } else {
                            assert(subs[k] == prev[k]);
                        }
                    }
                }
                assert forall|k1: int, k2: int, x: usize|
                    0 <= k1 < subs.len() && 0 <= k2 < subs.len() && k1 != k2 implies !(#[trigger] subs[k1].contains(x)
                    && #[trigger] subs[k2].contains(x)) by {
                    if k1 == si {
                        assert(subs[k2] == prev[k2]);
                    } else if k2 == si {
                        assert(subs[k1] == prev[k1]);
                    } else {
                        assert(subs[k1] == prev[k1]);
                        assert(subs[k2] == prev[k2]);
                    }
                }
                assert forall|k: int, a: int, b: int|
                    0 <= k < subs.len() && 0 <= a < b < subs[k].len() implies #[trigger] rule.spec_holds(
                    subs[k][b],
                    subs[k][a],
                ) by {
                    if k == si && b == prev[si].len() as int {
                        assert(subs[k][a] == prev[si][a]);
                        assert(rule.spec_holds(m, prev[si][a]));
                    } else if k == si {
                        assert(subs[k][a] == prev[si][a]);
                        assert(subs[k][b] == prev[si][b]);
                    }
                }
                assert forall|k: int| 0 <= k < subs.len() implies (#[trigger] subs[k]).len() >= 1 by {
                }
            },
            None => {
                let last = prev.len() as int;
                assert(subs[last] == seq![m]);
                assert(subs[last][0] == m);
                assert forall|k: int, j: int| 0 <= k < subs.len() && 0 <= j < subs[k].len() implies ms.contains(
                    #[trigger] subs[k][j],
                ) by {
                    if k == last {
                        assert(subs[k][j] == m);
                    } else {
                        assert(subs[k][j] == prev[k][j]);
                        if t.len() > 0 {
                            assert(t.contains(prev[k][j]));
                        }
                    }
                }
                assert forall|x: usize| #[trigger] ms.contains(x) implies exists|k: int|
                    0 <= k < subs.len() && #[trigger] subs[k].contains(x) by {
                    if x == m {
                        assert(subs[last].contains(x));
                    } else {
                        assert(t.contains(x));
                        let k = choose|k: int| 0 <= k < prev.len() && #[trigger] prev[k].contains(x);
                        assert(subs[k] == prev[k]);
                    }
                }
                assert forall|k: int| 0 <= k < subs.len() implies (#[trigger] subs[k]).no_duplicates() by {
                    if k == last {
                        assert(subs[k] == seq![m]);
                    } else {
                        assert(subs[k] == prev[k]);
                    }
                }
                assert forall|k1: int, k2: int, x: usize|
                    0 <= k1 < subs.len() && 0 <= k2 < subs.len() && k1 != k2 implies !(#[trigger] subs[k1].contains(x)
                    && #[trigger] subs[k2].contains(x)) by {
                    if k1 == last {
                        assert(subs[k2] == prev[k2]);
                        if subs[k1].contains(x) {
                            assert(x == m);
                        }
                    } else if k2 == last {
                        assert(subs[k1] == prev[k1]);
                        if subs[k2].contains(x) {
                            assert(x == m);
                        }
                    } else {
                        assert(subs[k1] == prev[k1]);
                        assert(subs[k2] == prev[k2]);
                    }
                }
                assert forall|k: int, a: int, b: int|
                    0 <= k < subs.len() && 0 <= a < b < subs[k].len() implies #[trigger] rule.spec_holds(
                    subs[k][b],
                    subs[k][a],
                ) by {
                    if k != last {
                        assert(subs[k] == prev[k]);
                    }
                }
                assert forall|k: int| 0 <= k < subs.len() implies (#[trigger] subs[k]).len() >= 1 by {
                    if k != last {
                        assert(subs[k] == prev[k]);
                    }
                }
            },
        }
    }
}

/// The cluster number that subgroup `k` of a split of cluster `cid` gets:
/// the first keeps `cid`, the others are appended from `base` on.
pub open spec fn split_label(cid: usize, base: nat, k: int) -> usize {
    if k == 0 {
        cid
    } else {
        (base + k - 1) as usize
    }
}

/// The index after the members of subgroups `0..k` are relabelled in turn.
pub open spec fn split_index_upto(index: Seq<usize>, subs: Seq<Seq<usize>>, cid: usize, base: nat, k: nat) -> Seq<usize>
    decreases k,
{
    if k == 0 {
        index
    } else {
        let prev = split_index_upto(index, subs, cid, base, (k - 1) as nat);
        Seq::new(
            prev.len(),
            |x: int| if subs[k - 1].contains(x as usize) { split_label(cid, base, k - 1) } else { prev[x] },
        )
    }
}

proof fn lemma_split_index(index: Seq<usize>, subs: Seq<Seq<usize>>, cid: usize, base: nat, k: nat)
    requires
        k <= subs.len(),
        forall|k1: int, k2: int, x: usize|
            0 <= k1 < subs.len() && 0 <= k2 < subs.len() && k1 != k2 ==> !(#[trigger] subs[k1].contains(x)
                && #[trigger] subs[k2].contains(x)),
    ensures
        split_index_upto(index, subs, cid, base, k).len() == index.len(),
        forall|x: int, j: int|
            0 <= x < index.len() && 0 <= j < k && #[trigger] subs[j].contains(x as usize) ==> #[trigger] split_index_upto(
                index,
                subs,
                cid,
                base,
                k,
            )[x] == split_label(cid, base, j),
        forall|x: int|
            0 <= x < index.len() && (forall|j: int| 0 <= j < k ==> !#[trigger] subs[j].contains(x as usize))
                ==> #[trigger] split_index_upto(index, subs, cid, base, k)[x] == index[x],
    decreases k,
{
    if k > 0 {
        lemma_split_index(index, subs, cid, base, (k - 1) as nat);
    }
}

/// Cluster `cid` replaced by the subgroups `subs`: the first takes its place
/// and the others are appended as new clusters.
pub open spec fn apply_split(p: Partition, cid: usize, subs: Seq<Seq<usize>>) -> Partition {
    if subs.len() == 0 || cid as int >= p.members.len() {
        p
    } else {
        Partition {
            members: p.members.update(cid as int, subs[0]) + subs.skip(1),
            index: split_index_upto(p.index, subs, cid, p.members.len(), subs.len()),
        }
    }
}

/// Splitting a cluster by a division of its members keeps the partition well
/// formed, and every cluster afterwards lies within a cluster from before.
pub proof fn lemma_apply_split_wf(p: Partition, cid: usize, subs: Seq<Seq<usize>>)
    requires
        p.wf(),
        (cid as int) < p.members.len(),
        splits(subs, p.members[cid as int]),
        p.members.len() + subs.len() <= usize::MAX + 1,
    ensures
        apply_split(p, cid, subs).wf(),
        apply_split(p, cid, subs).index.len() == p.index.len(),
        apply_split(p, cid, subs).members.len() == p.members.len() + subs.len() - 1,
        forall|c: int, x: usize|
            0 <= c < apply_split(p, cid, subs).members.len() && #[trigger] apply_split(p, cid, subs).members[c].contains(x)
                ==> p.members[p.index[x as int] as int].contains(x) && (x as int) < p.index.len() && (if c < p.members.len() {
                p.index[x as int] == c
            } else {
                p.index[x as int] == cid
            }),
{
    let q = apply_split(p, cid, subs);
    let base = p.members.len();
    let whole = p.members[cid as int];
    lemma_split_index(p.index, subs, cid, base, subs.len());
    assert forall|c: int, j: int| 0 <= c < q.members.len() && 0 <= j < q.members[c].len() implies q.members[c][j]
        == (if c == cid as int {
        subs[0][j]
    } else if c < base {
        p.members[c][j]
    } else {
        subs[c - base + 1][j]
    }) by {
        if c >= base {
            assert(q.members[c] == subs.skip(1)[c - base]);
        }
    }
    assert forall|c: int| 0 <= c < q.members.len() implies #[trigger] q.members[c] == (if c == cid as int {
        subs[0]
    } else if c < base {
        p.members[c]
    } else {
        subs[c - base + 1]
    }) by {
        if c >= base {
            assert(q.members[c] == subs.skip(1)[c - base]);
        }
    }
    assert forall|i: int| 0 <= i < q.index.len() implies (#[trigger] q.index[i]) < q.members.len()
        && q.members[q.index[i] as int].contains(i as usize) by {
        if whole.contains(i as usize) {
            let k = choose|k: int| 0 <= k < subs.len() && #[trigger] subs[k].contains(i as usize);
            assert(q.index[i] == split_label(cid, base, k));
            if k == 0 {
                assert(q.members[cid as int] == subs[0]);
            } else {
                assert(q.members[base + k - 1] == subs[k]);
            }
        } else {
            assert forall|j: int| 0 <= j < subs.len() implies !#[trigger] subs[j].contains(i as usize) by {
                if subs[j].contains(i as usize) {
                    let y = choose|y: int| 0 <= y < subs[j].len() && subs[j][y] == i as usize;
                    assert(whole.contains(subs[j][y]));
                }
            }
            assert(q.index[i] == p.index[i]);
            assert(p.members[p.index[i] as int].contains(i as usize));
            if p.index[i] == cid {
            }
        }
    }
    assert forall|c: int, k: int|
        0 <= c < q.members.len() && 0 <= k < q.members[c].len() implies (#[trigger] q.members[c][k]) < q.index.len()
        && q.index[q.members[c][k] as int] == c by {
        let v = q.members[c][k];
        if c == cid as int || c >= base {
            let j = if c == cid as int {
                0
            } else {
                c - base + 1
            };
            assert(v == subs[j][k]);
            assert(whole.contains(subs[j][k]));
            let y = choose|y: int| 0 <= y < whole.len() && whole[y] == v;
            assert(p.members[cid as int][y] == v);
            assert(subs[j].contains(v));
            assert(q.index[v as int] == split_label(cid, base, j));
        } else {
            assert(v == p.members[c][k]);
            assert(p.index[v as int] == c);
            assert forall|j: int| 0 <= j < subs.len() implies !#[trigger] subs[j].contains(v) by {
                if subs[j].contains(v) {
                    let y = choose|y: int| 0 <= y < subs[j].len() && subs[j][y] == v;
                    assert(whole.contains(subs[j][y]));
                    let z = choose|z: int| 0 <= z < whole.len() && whole[z] == v;
                    assert(p.index[p.members[cid as int][z] as int] == cid);
                }
            }
        }
    }
    assert forall|c: int| 0 <= c < q.members.len() implies (#[trigger] q.members[c]).no_duplicates() by {
    }
    assert forall|c: int, x: usize|
        0 <= c < q.members.len() && #[trigger] q.members[c].contains(x) implies p.members[p.index[x as int] as int].contains(
        x,
    ) && (x as int) < p.index.len() && (if c < p.members.len() {
        p.index[x as int] == c
    } else {
        p.index[x as int] == cid
    }) by {
        let k = choose|k: int| 0 <= k < q.members[c].len() && q.members[c][k] == x;
        if c == cid as int || c >= base {
            let j = if c == cid as int {
                0
            } else {
                c - base + 1
            };
            assert(x == subs[j][k]);
            assert(whole.contains(subs[j][k]));
            let y = choose|y: int| 0 <= y < whole.len() && whole[y] == x;
            assert(p.members[cid as int][y] == x);
        } else {
            assert(x == p.members[c][k]);
        }
        assert(p.members[p.index[x as int] as int].contains((x as int) as usize));
    }
}

/// A split keeps every cluster a clique of any rule it was a clique of.
pub proof fn lemma_apply_split_keeps_cliques<R: PairRule>(p: Partition, cid: usize, subs: Seq<Seq<usize>>, rule: &R)
    requires
        p.wf(),
        (cid as int) < p.members.len(),
        splits(subs, p.members[cid as int]),
        p.members.len() + subs.len() <= usize::MAX + 1,
        p.cliques(rule),
    ensures
        apply_split(p, cid, subs).cliques(rule),
{
    let q = apply_split(p, cid, subs);
    lemma_apply_split_wf(p, cid, subs);
    assert forall|c: int, x: int, y: int|
        0 <= c < q.members.len() && 0 <= x < q.members[c].len() && 0 <= y < q.members[c].len() && x != y implies #[trigger] rule.spec_holds(
        q.members[c][x],
        q.members[c][y],
    ) by {
        let vx = q.members[c][x];
        let vy = q.members[c][y];
        assert(q.members[c].contains(vx));
        assert(q.members[c].contains(vy));
        assert(vx != vy);
        let d = p.index[vx as int];
        assert(p.index[vy as int] == d);
        assert(p.members[d as int].contains(vx));
        assert(p.members[p.index[vy as int] as int].contains(vy));
        let i = choose|i: int| 0 <= i < p.members[d as int].len() && p.members[d as int][i] == vx;
        let j = choose|j: int| 0 <= j < p.members[d as int].len() && p.members[d as int][j] == vy;
        assert(rule.spec_holds(p.members[d as int][i], p.members[d as int][j]));
    }
}

/// The member lists held in `v`.
pub open spec fn nested(v: Seq<Vec<usize>>) -> Seq<Seq<usize>> {
    v.map_values(|x: Vec<usize>| x@)
}

/// Whether `m` passes `rule` against every element of `sub`.
pub fn fits<R: PairRule>(rule: &R, sub: &Vec<usize>, m: usize) -> (r: bool)
    requires
        forall|e: int| 0 <= e < sub@.len() ==> (#[trigger] sub@[e] as nat) < rule.spec_size(),
        (m as nat) < rule.spec_size(),
    ensures
        r == fits_all(rule, sub@, m),
{
    let mut e: usize = 0;
    while e < sub.len()
        invariant
            e <= sub@.len(),
            forall|f: int| 0 <= f < sub@.len() ==> (#[trigger] sub@[f] as nat) < rule.spec_size(),
            (m as nat) < rule.spec_size(),
            forall|f: int| 0 <= f < e ==> #[trigger] rule.spec_holds(m, sub@[f]),
        decreases sub@.len() - e,
    {
        if !rule.holds(m, sub[e]) {
            return false;
        }
        e = e + 1;
    }
    true
}

/// Greedy subgrouping of `ms` under `rule`: each element joins the first
/// subgroup all of whose members it passes against, or starts a new one.
pub fn greedy_split<R: PairRule>(rule: &R, ms: &Vec<usize>) -> (r: Vec<Vec<usize>>)
    requires
        forall|i: int| 0 <= i < ms@.len() ==> (#[trigger] ms@[i] as nat) < rule.spec_size(),
    ensures
        nested(r@) == greedy_subgroups(rule, ms@),
{
    let mut subs: Vec<Vec<usize>> = Vec::new();
    let mut i: usize = 0;
    while i < ms.len()
        invariant
            i <= ms@.len(),
            forall|q: int| 0 <= q < ms@.len() ==> (#[trigger] ms@[q] as nat) < rule.spec_size(),
            nested(subs@) == greedy_subgroups(rule, ms@.take(i as int)),
            forall|k: int, e: int|
                0 <= k < subs@.len() && 0 <= e < subs@[k]@.len() ==> (#[trigger] subs@[k]@[e] as nat) < rule.spec_size(),
        decreases ms@.len() - i,
    {
        let m = ms[i];
        let ghost prev = nested(subs@);
        assert(ms@.take(i + 1).drop_last() =~= ms@.take(i as int));
        assert(ms@.take(i + 1).last() == m);
        proof {
            lemma_first_fit(rule, prev, m, prev.len());
        }
        let mut s: usize = 0;
        let mut found = false;
        while s < subs.len() && !found
            invariant
                nested(subs@) == prev,
                s <= subs@.len(),
                (m as nat) < rule.spec_size(),
                forall|k: int, e: int|
                    0 <= k < subs@.len() && 0 <= e < subs@[k]@.len() ==> (#[trigger] subs@[k]@[e] as nat) < rule.spec_size(),
                forall|t: int| 0 <= t < s ==> !#[trigger] fits_all(rule, prev[t], m),
                found ==> (s as int) < subs@.len() && fits_all(rule, prev[s as int], m),
            decreases subs@.len() - s + if found { 0int } else { 1int },
        {
            assert(prev[s as int] == subs@[s as int]@);
            if fits(rule, &subs[s], m) {
                found = true;
            } else {
                s = s + 1;
            }
        }
        if found {
            assert(first_fit(rule, prev, m, prev.len()) == Some(s as nat));
            subs[s].push(m);
            assert(nested(subs@) =~= prev.update(s as int, prev[s as int].push(m)));
        } else {
            let mut one: Vec<usize> = Vec::new();
            one.push(m);
            subs.push(one);
            assert(nested(subs@) =~= prev.push(seq![m]));
        }
        i = i + 1;
    }
    assert(ms@.take(ms@.len() as int) =~= ms@);
    subs
}

/// The working clustering.
pub struct Clusters {
    members: Vec<Vec<usize>>,
    index: Vec<usize>,
}

impl View for Clusters {
    type V = Partition;

    closed spec fn view(&self) -> Partition {
        Partition { members: self.members@.map_values(|v: Vec<usize>| v@), index: self.index@ }
    }
}

/// A copy of `v`.
pub fn copy_indices(v: &Vec<usize>) -> (r: Vec<usize>)
    ensures
        r@ == v@,
{
    let mut out: Vec<usize> = Vec::new();
    let mut k: usize = 0;
    while k < v.len()
        invariant
            k <= v@.len(),
            out@ == v@.take(k as int),
        decreases v@.len() - k,
    {
        out.push(v[k]);
        assert(v@.take(k as int).push(v@[k as int]) =~= v@.take(k + 1));
        k = k + 1;
    }
    assert(v@.take(v@.len() as int) =~= v@);
    out
}

impl Clusters {
    pub open spec fn wf(&self) -> bool {
        &&& self@.wf()
    }

    /// Every one of the elements `0..n` in a cluster of its own.
    pub fn new(n: usize) -> (r: Clusters)
        requires
            n < usize::MAX,
        ensures
            r.wf(),
            r@ == Partition::singletons(n as nat),
    {
        let mut members: Vec<Vec<usize>> = Vec::new();
        let mut index: Vec<usize> = Vec::new();
        let mut i: usize = 0;
        while i < n
            invariant
                i <= n,
                members@.len() == i,
                index@.len() == i,
                forall|j: int| 0 <= j < i ==> (#[trigger] members@[j])@ == seq![j as usize],
                forall|j: int| 0 <= j < i ==> #[trigger] index@[j] == j as usize,
            decreases n - i,
        {
            let mut one: Vec<usize> = Vec::new();
            one.push(i);
            members.push(one);
            index.push(i);
            i = i + 1;
        }
        let r = Clusters { members, index };
        assert(r@.members =~= Partition::singletons(n as nat).members);
        assert(r@.index =~= Partition::singletons(n as nat).index);
        proof {
            lemma_singletons_wf(n as nat);
        }
        r
    }

    /// A clustering holds no more clusters than a vector can.
    pub proof fn lemma_members_bound(&self)
        ensures
            self@.members.len() <= usize::MAX,
    {
        assert(self.members.len() == self.members@.len());
    }

    /// The number of elements.
    pub fn len(&self) -> (r: usize)
        ensures
            r == self@.index.len(),
    {
        self.index.len()
    }

    /// The cluster that holds `i`.
    pub fn cluster_of(&self, i: usize) -> (r: usize)
        requires
            (i as int) < self@.index.len(),
        ensures
            r == self@.index[i as int],
    {
        self.index[i]
    }

    /// The number of elements in the cluster that holds `i`.
    pub fn cluster_size(&self, i: usize) -> (r: usize)
        requires
            self.wf(),
            (i as int) < self@.index.len(),
        ensures
            r == self@.members[self@.index[i as int] as int].len(),
    {
        let c = self.index[i];
        self.members[c].len()
    }

    /// The members of cluster `c`, in order.
    pub fn members_of(&self, c: usize) -> (r: Vec<usize>)
        requires
            (c as int) < self@.members.len(),
        ensures
            r@ == self@.members[c as int],
    {
        copy_indices(&self.members[c])
    }

    /// Moves every member of cluster `from` to the end of cluster `into`.
    fn absorb(&mut self, into: usize, from: usize)
        requires
            old(self).wf(),
            into != from,
            (into as int) < old(self)@.members.len(),
            (from as int) < old(self)@.members.len(),
        ensures
            final(self).wf(),
            final(self)@ == old(self)@.absorb(into, from),
    {
        let ghost p = self@;
        let mut moved: Vec<usize> = Vec::new();
        std::mem::swap(&mut moved, &mut self.members[from]);
        assert(moved@ == p.members[from as int]);
        let ghost mem = self.members@;
        assert(mem.len() == p.members.len());
        let n = self.index.len();
        let mut k: usize = 0;
        while k < moved.len()
            invariant
                p.wf(),
                n == p.index.len(),
                self.index@.len() == n,
                self.members@ == mem,
                (from as int) < p.members.len(),
                (into as int) < p.members.len(),
                moved@ == p.members[from as int],
                k <= moved@.len(),
                forall|i: int|
                    0 <= i < n ==> #[trigger] self.index@[i] == (if moved@.take(k as int).contains(i as usize) {
                        into
                    } else {
                        p.index[i]
                    }),
            decreases moved@.len() - k,
        {
            let m = moved[k];
            assert(p.members[from as int][k as int] == m);
            assert(m < n);
            self.index.set(m, into);
            assert forall|i: int| 0 <= i < n implies #[trigger] self.index@[i] == (if moved@.take(
                k + 1,
            ).contains(i as usize) {
                into
            } else {
                p.index[i]
            }) by {
                let s0 = moved@.take(k as int);
                let s1 = moved@.take(k + 1);
                if s1.contains(i as usize) && i != m as int {
                    let j = choose|j: int| 0 <= j < s1.len() && s1[j] == i as usize;
                    assert(s0[j] == i as usize);
                }
                if s0.contains(i as usize) {
                    let j = choose|j: int| 0 <= j < s0.len() && s0[j] == i as usize;
                    assert(s1[j] == i as usize);
                }
                if i == m as int {
                    assert(s1[k as int] == m);
                }
            }
            k = k + 1;
        }
        assert(moved@.take(moved@.len() as int) =~= moved@);
        assert forall|i: int| 0 <= i < n implies #[trigger] self.index@[i] == relabel(p.index, from, into)[i] by {
            if moved@.contains(i as usize) {
                let j = choose|j: int| 0 <= j < moved@.len() && moved@[j] == i as usize;
                assert(p.members[from as int][j] == i as usize);
            }
            if p.index[i] == from {
                assert(p.members[p.index[i] as int].contains(i as usize));
            }
        }
        self.members[into].append(&mut moved);
        assert(self@.index =~= p.absorb(into, from).index);
        assert(self@.members =~= p.absorb(into, from).members);
        proof {
            lemma_absorb_wf(p, into, from);
        }
    }

    /// Joins the clusters of `a` and `b` unconditionally.
    pub fn force_merge(&mut self, a: usize, b: usize)
        requires
            old(self).wf(),
            (a as int) < old(self)@.index.len(),
            (b as int) < old(self)@.index.len(),
        ensures
            final(self).wf(),
            final(self)@ == old(self)@.force_merged(a, b),
            final(self)@.index.len() == old(self)@.index.len(),
            final(self)@.members.len() == old(self)@.members.len(),
    {
        let ca = self.index[a];
        let cb = self.index[b];
        if ca == cb {
            return;
        }
        self.absorb(ca, cb);
    }

    /// Joins the clusters of `a` and `b` when complete linkage allows it;
    /// says whether it did.
    pub fn try_merge<R: PairRule>(&mut self, a: usize, b: usize, rule: &R) -> (merged: bool)
        requires
            old(self).wf(),
            (a as int) < old(self)@.index.len(),
            (b as int) < old(self)@.index.len(),
            old(self)@.index.len() <= rule.spec_size(),
        ensures
            final(self).wf(),
            final(self)@ == old(self)@.try_merged(a, b, rule),
            final(self)@.index.len() == old(self)@.index.len(),
            final(self)@.members.len() == old(self)@.members.len(),
            merged == old(self)@.can_merge(a, b, rule),
    {
        let ghost p = self@;
        let ca = self.index[a];
        let cb = self.index[b];
        if ca == cb {
            return false;
        }
        let (small, large) = if self.members[ca].len() <= self.members[cb].len() {
            (ca, cb)
        } else {
            (cb, ca)
        };
        let ns = self.members[small].len();
        let nl = self.members[large].len();
        let mut x: usize = 0;
        while x < ns
            invariant
                self@ == p,
                p.wf(),
                p.index[a as int] != p.index[b as int],
                p.merge_roles(a, b) == (small, large),
                p.index.len() <= rule.spec_size(),
                (small as int) < p.members.len(),
                (large as int) < p.members.len(),
                ns == p.members[small as int].len(),
                nl == p.members[large as int].len(),
                x <= ns,
                forall|i: int, j: int|
                    0 <= i < x && 0 <= j < nl ==> #[trigger] rule.spec_holds(
                        p.members[small as int][i],
                        p.members[large as int][j],
                    ),
            decreases ns - x,
        {
            let mut y: usize = 0;
            while y < nl
                invariant
                    self@ == p,
                    p.wf(),
                    p.index[a as int] != p.index[b as int],
                    p.merge_roles(a, b) == (small, large),
                    p.index.len() <= rule.spec_size(),
                    (small as int) < p.members.len(),
                    (large as int) < p.members.len(),
                    ns == p.members[small as int].len(),
                    nl == p.members[large as int].len(),
                    x < ns,
                    y <= nl,
                    forall|i: int, j: int|
                        0 <= i < x && 0 <= j < nl ==> #[trigger] rule.spec_holds(
                            p.members[small as int][i],
                            p.members[large as int][j],
                        ),
                    forall|j: int| 0 <= j < y ==> #[trigger] rule.spec_holds(
                        p.members[small as int][x as int],
                        p.members[large as int][j],
                    ),
                decreases nl - y,
            {
                let ms = self.members[small][x];
                let ml = self.members[large][y];
                assert(p.members[small as int][x as int] == ms);
                if !rule.holds(ms, ml) {
                    assert(!all_pairs_hold(rule, p.members[small as int], p.members[large as int]));
                    return false;
                }
                y = y + 1;
            }
            x = x + 1;
        }
        self.absorb(large, small);
        true
    }

    /// Splits `m` off into a cluster of its own, unless its cluster holds
    /// nothing else.
    pub fn evict(&mut self, m: usize)
        requires
            old(self).wf(),
            (m as int) < old(self)@.index.len(),
        ensures
            final(self).wf(),
            final(self)@ == old(self)@.evicted(m),
            final(self)@.index.len() == old(self)@.index.len(),
    {
        let ghost p = self@;
        let c = self.index[m];
        if self.members[c].len() <= 1 {
            return;
        }
        let mut kept: Vec<usize> = Vec::new();
        let len = self.members[c].len();
        let mut k: usize = 0;
        while k < len
            invariant
                self@ == p,
                (c as int) < p.members.len(),
                len == p.members[c as int].len(),
                k <= len,
                kept@ == drop_value(p.members[c as int].take(k as int), m),
            decreases len - k,
        {
            let x = self.members[c][k];
            assert(p.members[c as int].take(k + 1).drop_last() =~= p.members[c as int].take(k as int));
            if x != m {
                kept.push(x);
            }
            k = k + 1;
        }
        assert(p.members[c as int].take(len as int) =~= p.members[c as int]);
        self.members.set(c, kept);
        let new_cid = self.members.len();
        let mut single: Vec<usize> = Vec::new();
        single.push(m);
        self.members.push(single);
        let total = self.members.len();
        assert(total == p.members.len() + 1);
        self.index.set(m, new_cid);
        assert(self@.members =~= p.evicted(m).members);
        assert(self@.index =~= p.evicted(m).index);
        proof {
            lemma_evicted_wf(p, m);
        }
    }

    /// The clusters of two or more elements, each once, in the order in
    /// which the elements first reach them (`get_groups`).
    pub fn get_groups(&self) -> (r: Vec<Vec<usize>>)
        requires
            self.wf(),
        ensures
            r@.len() == self@.groups().len(),
            forall|g: int| 0 <= g < r@.len() ==> (#[trigger] r@[g])@ == self@.groups()[g],
    {
        let ghost p = self@;
        let nc = self.members.len();
        let mut seen: Vec<bool> = Vec::new();
        let mut c: usize = 0;
        while c < nc
            invariant
                c <= nc,
                seen@.len() == c,
                forall|d: int| 0 <= d < c ==> !#[trigger] seen@[d],
            decreases nc - c,
        {
            seen.push(false);
            c = c + 1;
        }
        let n = self.index.len();
        let mut groups: Vec<Vec<usize>> = Vec::new();
        let mut i: usize = 0;
        while i < n
            invariant
                self@ == p,
                p.wf(),
                n == p.index.len(),
                nc == p.members.len(),
                seen@.len() == nc,
                i <= n,
                groups@.len() == p.groups_upto(i as nat).len(),
                forall|g: int| 0 <= g < groups@.len() ==> (#[trigger] groups@[g])@ == p.groups_upto(i as nat)[g],
                forall|d: int|
                    0 <= d < nc ==> #[trigger] seen@[d] == (p.members[d].len() >= 2 && p.index.take(
                        i as int,
                    ).contains(d as usize)),
            decreases n - i,
        {
            let c = self.index[i];
            assert(p.index.take(i + 1).drop_last() =~= p.index.take(i as int));
            assert(p.index.take(i + 1)[i as int] == c);
            if self.members[c].len() >= 2 && !seen[c] {
                seen.set(c, true);
                let g = copy_indices(&self.members[c]);
                groups.push(g);
            }
            assert forall|d: int|
                0 <= d < nc implies #[trigger] seen@[d] == (p.members[d].len() >= 2 && p.index.take(
                i + 1,
            ).contains(d as usize)) by {
                let s0 = p.index.take(i as int);
                let s1 = p.index.take(i + 1);
                if s0.contains(d as usize) {
                    let j = choose|j: int| 0 <= j < s0.len() && s0[j] == d as usize;
                    assert(s1[j] == d as usize);
                }
                if s1.contains(d as usize) && d != c as int {
                    let j = choose|j: int| 0 <= j < s1.len() && s1[j] == d as usize;
                    assert(s0[j] == d as usize);
                }
            }
            i = i + 1;
        }
        assert(p.index.take(n as int) =~= p.index);
        groups
    }

    /// Replaces cluster `cid` by the subgroups `subs` of its members: the
    /// first takes its place, the others become new clusters.
    pub fn split_cluster(&mut self, cid: usize, subs: &Vec<Vec<usize>>)
        requires
            old(self).wf(),
            (cid as int) < old(self)@.members.len(),
            splits(nested(subs@), old(self)@.members[cid as int]),
        ensures
            final(self).wf(),
            final(self)@ == apply_split(old(self)@, cid, nested(subs@)),
            final(self)@.index.len() == old(self)@.index.len(),
    {
        let ghost p = self@;
        let ghost ss = nested(subs@);
        let base = self.members.len();
        let n = self.index.len();
        let first = copy_indices(&subs[0]);
        assert(first@ == ss[0]);
        self.members.set(cid, first);
        let mut k: usize = 0;
        while k < subs.len()
            invariant
                p.wf(),
                ss == nested(subs@),
                base == p.members.len(),
                (cid as int) < base,
                n == p.index.len(),
                subs@.len() >= 1,
                splits(ss, p.members[cid as int]),
                k <= subs@.len(),
                k >= 1 ==> self@.members =~= p.members.update(cid as int, ss[0]) + ss.skip(1).take(k - 1),
                k == 0 ==> self@.members =~= p.members.update(cid as int, ss[0]),
                self@.index == split_index_upto(p.index, ss, cid, base as nat, k as nat),
                self@.index.len() == n,
            decreases subs@.len() - k,
        {
            let label = if k == 0 {
                assert(ss.skip(1).take(0) =~= Seq::<Seq<usize>>::empty());
                assert(self@.members =~= p.members.update(cid as int, ss[0]) + ss.skip(1).take(0));
                cid
            } else {
                let ghost old_members = self@.members;
                let new_cid = self.members.len();
                let copy = copy_indices(&subs[k]);
                assert(copy@ == ss[k as int]);
                self.members.push(copy);
                assert(self@.members =~= old_members.push(ss[k as int]));
                proof {
                    if k == 1 {
                        assert(ss.skip(1).take(0) =~= Seq::<Seq<usize>>::empty());
                    }
                    assert(ss.skip(1).take(k as int) =~= ss.skip(1).take(k - 1).push(ss[k as int]));
                    assert(self@.members =~= p.members.update(cid as int, ss[0]) + ss.skip(1).take(k as int));
                }
                assert(new_cid == base + k - 1);
                new_cid
            };
            assert(label == split_label(cid, base as nat, k as int));
            let ghost before = self@.index;
            let ghost members_now = self@.members;
            let sub = &subs[k];
            assert(sub@ == ss[k as int]);
            let mut j: usize = 0;
            while j < sub.len()
                invariant
                    p.wf(),
                    n == p.index.len(),
                    self@.index.len() == n,
                    self@.members == members_now,
                    before.len() == n,
                    sub@ == ss[k as int],
                    (k as int) < ss.len(),
                    splits(ss, p.members[cid as int]),
                    (cid as int) < p.members.len(),
                    j <= sub@.len(),
                    forall|x: int|
                        0 <= x < n ==> #[trigger] self@.index[x] == (if sub@.take(j as int).contains(x as usize) {
                            label
                        } else {
                            before[x]
                        }),
                decreases sub@.len() - j,
            {
                let m = sub[j];
                proof {
                    assert(ss[k as int][j as int] == m);
                    assert(p.members[cid as int].contains(m));
                    let y = choose|y: int| 0 <= y < p.members[cid as int].len() && p.members[cid as int][y] == m;
                    assert(p.members[cid as int][y] < p.index.len());
                }
                self.index.set(m, label);
                assert forall|x: int| 0 <= x < n implies #[trigger] self@.index[x] == (if sub@.take(j + 1).contains(
                    x as usize,
                ) {
                    label
                } else {
                    before[x]
                }) by {
                    let s0 = sub@.take(j as int);
                    let s1 = sub@.take(j + 1);
                    if s1.contains(x as usize) && x != m as int {
                        let q = choose|q: int| 0 <= q < s1.len() && s1[q] == x as usize;
                        assert(s0[q] == x as usize);
                    }
                    if s0.contains(x as usize) {
                        let q = choose|q: int| 0 <= q < s0.len() && s0[q] == x as usize;
                        assert(s1[q] == x as usize);
                    }
                    if x == m as int {
                        assert(s1[j as int] == m);
                    }
                }
                j = j + 1;
            }
            assert(sub@.take(sub@.len() as int) =~= sub@);
            assert(self@.index =~= split_index_upto(p.index, ss, cid, base as nat, (k + 1) as nat));
            k = k + 1;
        }
        assert(ss.skip(1).take(subs@.len() - 1) =~= ss.skip(1));
        let total = self.members.len();
        assert(total == p.members.len() + ss.len() - 1);
        proof {
            lemma_apply_split_wf(p, cid, ss);
        }
        assert(self@.members =~= apply_split(p, cid, ss).members);
        assert(self@.index =~= apply_split(p, cid, ss).index);
    }
}

} // verus!
