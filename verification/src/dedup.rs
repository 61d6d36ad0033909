//! Grouping of similar pictures: exact duplicates by MD5, then perceptual
//! hashes compared pairwise and joined by complete linkage, optional
//! confirmation by image-embedding verdicts, and the clean-up passes that
//! keep every reported group tight.

use vstd::prelude::*;
use crate::clusters::{Clusters, PairRule, Partition, symmetric, apply_split, greedy_subgroups, nested, greedy_split};
use crate::phash::{hamming, hamming_distance, lemma_hamming_laws};
use crate::models::FileRecord;
use crate::text::{chars_of, chars_equal, string_from_chars, replace_char, replace_char_in, lowercase_of, to_lowercase};

verus! {

/// Hash distance up to which two pictures count as similar by default.
pub const DEFAULT_PHASH_THRESHOLD: u32 = 8;

/// Groups larger than this are split again under a stricter test.
pub const MAX_GROUP_SIZE: usize = 20;

/// The hash thresholds of one duplicate search. No reported group keeps two
/// pictures more than `phash_threshold` bits apart; pairs further apart but
/// within `phash_suspect_max` are the suspects shown to the embeddings.
pub struct DedupConfig {
    pub phash_threshold: u32,
    pub phash_suspect_max: u32,
}

impl DedupConfig {
    /// The thresholds derived from the similarity threshold: pairs up to four
    /// bits further apart are suspects for the embedding check.
    pub fn new(phash_threshold: u32) -> (r: DedupConfig)
        requires
            phash_threshold <= u32::MAX - 4,
        ensures
            r.phash_threshold == phash_threshold,
            r.phash_suspect_max == phash_threshold + 4,
    {
        DedupConfig { phash_threshold, phash_suspect_max: phash_threshold + 4 }
    }
}

/// Two pictures pass when their hashes are at most `max_distance` bits apart.
pub struct PhashRule<'a> {
    pub hashes: &'a Vec<i64>,
    pub max_distance: u32,
}

impl<'a> PairRule for PhashRule<'a> {
    open spec fn spec_size(&self) -> nat {
        self.hashes@.len()
    }

    open spec fn spec_holds(&self, a: usize, b: usize) -> bool {
        hamming(self.hashes@[a as int], self.hashes@[b as int]) <= self.max_distance
    }

    fn holds(&self, a: usize, b: usize) -> (r: bool) {
        hamming_distance(self.hashes[a], self.hashes[b]) <= self.max_distance
    }
}

/// The hash rule does not depend on the order of the two pictures.
pub proof fn lemma_phash_rule_symmetric(rule: &PhashRule)
    ensures
        symmetric(rule),
{
    assert forall|a: usize, b: usize| #[trigger] rule.spec_holds(a, b) == rule.spec_holds(b, a) by {
        lemma_hamming_laws(rule.hashes@[a as int], rule.hashes@[b as int]);
    }
}

/// The pairs `(i, j)` with `i < j < upto`, in that order, whose pictures lie
/// in different clusters and whose hash distance `d` has `lo < d <= hi`.
pub open spec fn band_row(p: Partition, h: Seq<i64>, i: nat, upto: nat, lo: int, hi: int) -> Seq<(usize, usize)>
    decreases upto,
{
    if upto <= i + 1 {
        Seq::empty()
    } else {
        let prev = band_row(p, h, i, (upto - 1) as nat, lo, hi);
        let j = upto - 1;
        let d = hamming(h[i as int], h[j]) as int;
        if p.index[i as int] != p.index[j] && lo < d && d <= hi {
            prev.push((i as usize, j as usize))
        } else {
            prev
        }
    }
}

/// `band_row` for the rows `0..rows`, one after the other.
pub open spec fn band_pairs(p: Partition, h: Seq<i64>, rows: nat, lo: int, hi: int) -> Seq<(usize, usize)>
    decreases rows,
{
    if rows == 0 {
        Seq::empty()
    } else {
        band_pairs(p, h, (rows - 1) as nat, lo, hi) + band_row(p, h, (rows - 1) as nat, h.len(), lo, hi)
    }
}

/// Every pair of `pairs` names two pictures below `n`.
pub open spec fn pairs_within(pairs: Seq<(usize, usize)>, n: nat) -> bool {
    forall|k: int| 0 <= k < pairs.len() ==> (#[trigger] pairs[k]).0 < n && pairs[k].1 < n
}

/// The hashes of the two pictures of every pair of `pairs` are more than
/// `lo` bits apart.
pub open spec fn pairs_beyond(pairs: Seq<(usize, usize)>, h: Seq<i64>, lo: int) -> bool {
    forall|k: int| 0 <= k < pairs.len() ==> lo < hamming(h[(#[trigger] pairs[k]).0 as int], h[pairs[k].1 as int])
}

pub proof fn lemma_band_row_within(p: Partition, h: Seq<i64>, i: nat, upto: nat, lo: int, hi: int)
    requires
        upto <= h.len(),
        h.len() <= usize::MAX,
    ensures
        pairs_within(band_row(p, h, i, upto, lo, hi), h.len()),
        pairs_beyond(band_row(p, h, i, upto, lo, hi), h, lo),
    decreases upto,
{
    if upto > i + 1 {
        lemma_band_row_within(p, h, i, (upto - 1) as nat, lo, hi);
    }
}

pub proof fn lemma_band_pairs_within(p: Partition, h: Seq<i64>, rows: nat, lo: int, hi: int)
    requires
        h.len() <= usize::MAX,
    ensures
        pairs_within(band_pairs(p, h, rows, lo, hi), h.len()),
        pairs_beyond(band_pairs(p, h, rows, lo, hi), h, lo),
    decreases rows,
{
    if rows > 0 {
        lemma_band_pairs_within(p, h, (rows - 1) as nat, lo, hi);
        lemma_band_row_within(p, h, (rows - 1) as nat, h.len(), lo, hi);
        let a = band_pairs(p, h, (rows - 1) as nat, lo, hi);
        let b = band_row(p, h, (rows - 1) as nat, h.len(), lo, hi);
        assert forall|k: int| 0 <= k < (a + b).len() implies (#[trigger] (a + b)[k]).0 < h.len() && (a + b)[k].1
            < h.len() && lo < hamming(h[(a + b)[k].0 as int], h[(a + b)[k].1 as int]) by {
            if k < a.len() {
                assert((a + b)[k] == a[k]);
            } else {
                assert((a + b)[k] == b[k - a.len()]);
            }
        }
    }
}

/// Compares picture `i` with every later picture in another cluster: pairs
/// within the threshold go to `close`, and, when `with_suspects`, pairs
/// further apart but within the suspect limit go to `suspects`.
pub fn scan_row(
    clusters: &Clusters,
    hashes: &Vec<i64>,
    cfg: &DedupConfig,
    i: usize,
    with_suspects: bool,
    close: &mut Vec<(usize, usize)>,
    suspects: &mut Vec<(usize, usize)>,
)
    requires
        clusters.wf(),
        hashes@.len() == clusters@.index.len(),
        (i as int) < hashes@.len(),
    ensures
        final(close)@ == old(close)@ + band_row(clusters@, hashes@, i as nat, hashes@.len(), -1, cfg.phash_threshold as int),
        final(suspects)@ == old(suspects)@ + (if with_suspects {
            band_row(clusters@, hashes@, i as nat, hashes@.len(), cfg.phash_threshold as int, cfg.phash_suspect_max as int)
        } else {
            Seq::empty()
        }),
{
    let ghost p = clusters@;
    let ghost h = hashes@;
    let n = hashes.len();
    let ghost lo_close: int = -1;
    let ghost hi_close: int = cfg.phash_threshold as int;
    let ghost lo_sus: int = cfg.phash_threshold as int;
    let ghost hi_sus: int = cfg.phash_suspect_max as int;
    let ci = clusters.cluster_of(i);
    let mut j: usize = i + 1;
    assert(close@ + band_row(p, h, i as nat, j as nat, lo_close, hi_close) =~= close@);
    assert(suspects@ + Seq::<(usize, usize)>::empty() =~= suspects@);
    assert(suspects@ + band_row(p, h, i as nat, j as nat, lo_sus, hi_sus) =~= suspects@);
    let ghost close0 = close@;
    let ghost sus0 = suspects@;
    while j < n
        invariant
            clusters@ == p,
            hashes@ == h,
            n == h.len(),
            n == p.index.len(),
            (i as int) < n,
            i < j <= n,
            ci == p.index[i as int],
            close@ == close0 + band_row(p, h, i as nat, j as nat, lo_close, hi_close),
            suspects@ == sus0 + (if with_suspects {
                band_row(p, h, i as nat, j as nat, lo_sus, hi_sus)
            } else {
                Seq::empty()
            }),
            lo_close == -1,
            hi_close == cfg.phash_threshold as int,
            lo_sus == cfg.phash_threshold as int,
            hi_sus == cfg.phash_suspect_max as int,
        decreases n - j,
    {
        let cj = clusters.cluster_of(j);
        if ci != cj {
            let d = hamming_distance(hashes[i], hashes[j]);
            if d <= cfg.phash_threshold {
                close.push((i, j));
            } else if with_suspects && d <= cfg.phash_suspect_max {
                suspects.push((i, j));
            }
        }
        assert(close0 + band_row(p, h, i as nat, j as nat, lo_close, hi_close).push((i, j)) =~= (close0
            + band_row(p, h, i as nat, j as nat, lo_close, hi_close)).push((i, j)));
        assert(sus0 + band_row(p, h, i as nat, j as nat, lo_sus, hi_sus).push((i, j)) =~= (sus0 + band_row(
            p,
            h,
            i as nat,
            j as nat,
            lo_sus,
            hi_sus,
        )).push((i, j)));
        j = j + 1;
    }
}

/// The whole pairwise comparison: `scan_row` for every picture in turn.
pub fn scan_all(clusters: &Clusters, hashes: &Vec<i64>, cfg: &DedupConfig, with_suspects: bool) -> (r: (
    Vec<(usize, usize)>,
    Vec<(usize, usize)>,
))
    requires
        clusters.wf(),
        hashes@.len() == clusters@.index.len(),
    ensures
        r.0@ == band_pairs(clusters@, hashes@, hashes@.len(), -1, cfg.phash_threshold as int),
        r.1@ == (if with_suspects {
            band_pairs(clusters@, hashes@, hashes@.len(), cfg.phash_threshold as int, cfg.phash_suspect_max as int)
        } else {
            Seq::empty()
        }),
{
    let ghost p = clusters@;
    let ghost h = hashes@;
    let mut close: Vec<(usize, usize)> = Vec::new();
    let mut suspects: Vec<(usize, usize)> = Vec::new();
    let n = hashes.len();
    let mut i: usize = 0;
    while i < n
        invariant
            clusters.wf(),
            clusters@ == p,
            hashes@ == h,
            n == h.len(),
            n == p.index.len(),
            i <= n,
            close@ == band_pairs(p, h, i as nat, -1, cfg.phash_threshold as int),
            suspects@ == (if with_suspects {
                band_pairs(p, h, i as nat, cfg.phash_threshold as int, cfg.phash_suspect_max as int)
            } else {
                Seq::empty()
            }),
        decreases n - i,
    {
        scan_row(clusters, hashes, cfg, i, with_suspects, &mut close, &mut suspects);
        proof {
            if !with_suspects {
                assert(Seq::<(usize, usize)>::empty() + Seq::<(usize, usize)>::empty() =~= Seq::<(usize, usize)>::empty());
            }
        }
        i = i + 1;
    }
    (close, suspects)
}

/// The pairs of `pairs` whose hash distance is exactly `d`, in order.
pub open spec fn at_distance(pairs: Seq<(usize, usize)>, h: Seq<i64>, d: nat) -> Seq<(usize, usize)>
    decreases pairs.len(),
{
    if pairs.len() == 0 {
        pairs
    } else {
        let prev = at_distance(pairs.drop_last(), h, d);
        let q = pairs.last();
        if hamming(h[q.0 as int], h[q.1 as int]) == d {
            prev.push(q)
        } else {
            prev
        }
    }
}

/// The pairs at distance `0`, then those at distance `1`, and so on up to
/// distance `d - 1`.
pub open spec fn by_distance_upto(pairs: Seq<(usize, usize)>, h: Seq<i64>, d: nat) -> Seq<(usize, usize)>
    decreases d,
{
    if d == 0 {
        Seq::empty()
    } else {
        by_distance_upto(pairs, h, (d - 1) as nat) + at_distance(pairs, h, (d - 1) as nat)
    }
}

/// `pairs` stably sorted by hash distance (distances never exceed 64).
pub open spec fn sorted_by_distance(pairs: Seq<(usize, usize)>, h: Seq<i64>) -> Seq<(usize, usize)> {
    by_distance_upto(pairs, h, 65)
}

/// Sorts pairs by the hash distance of their pictures, keeping the order of
/// pairs at equal distance (`sort_by_key` on the distance).
pub fn sort_by_distance(pairs: &Vec<(usize, usize)>, hashes: &Vec<i64>) -> (r: Vec<(usize, usize)>)
    requires
        pairs_within(pairs@, hashes@.len()),
    ensures
        r@ == sorted_by_distance(pairs@, hashes@),
{
    let ghost h = hashes@;
    let mut buckets: Vec<Vec<(usize, usize)>> = Vec::new();
    let mut d: usize = 0;
    while d < 65
        invariant
            d <= 65,
            buckets@.len() == d,
            forall|e: int| 0 <= e < d ==> (#[trigger] buckets@[e])@ == Seq::<(usize, usize)>::empty(),
        decreases 65 - d,
    {
        buckets.push(Vec::new());
        d = d + 1;
    }
    assert forall|e: int| 0 <= e < 65 implies (#[trigger] buckets@[e])@ == at_distance(pairs@.take(0), h, e as nat) by {
        assert(pairs@.take(0).len() == 0);
    }
    let mut k: usize = 0;
    while k < pairs.len()
        invariant
            hashes@ == h,
            pairs_within(pairs@, h.len()),
            k <= pairs@.len(),
            buckets@.len() == 65,
            forall|e: int| 0 <= e < 65 ==> (#[trigger] buckets@[e])@ == at_distance(pairs@.take(k as int), h, e as nat),
        decreases pairs@.len() - k,
    {
        let q = pairs[k];
        assert(pairs_within(pairs@, h.len()) ==> pairs@[k as int].0 < h.len());
        let dist = hamming_distance(hashes[q.0], hashes[q.1]);
        let ghost before = buckets@;
        buckets[dist as usize].push(q);
        assert(pairs@.take(k + 1).drop_last() =~= pairs@.take(k as int));
        assert(pairs@.take(k + 1).last() == q);
        assert forall|e: int| 0 <= e < 65 implies (#[trigger] buckets@[e])@ == at_distance(
            pairs@.take(k + 1),
            h,
            e as nat,
        ) by {
            if e != dist as int {
                assert(buckets@[e] == before[e]);
            }
        }
        k = k + 1;
    }
    assert(pairs@.take(pairs@.len() as int) =~= pairs@);
    let mut out: Vec<(usize, usize)> = Vec::new();
    let mut e: usize = 0;
    while e < 65
        invariant
            e <= 65,
            buckets@.len() == 65,
            forall|f: int| 0 <= f < 65 ==> (#[trigger] buckets@[f])@ == at_distance(pairs@, h, f as nat),
            out@ == by_distance_upto(pairs@, h, e as nat),
        decreases 65 - e,
    {
        let mut k: usize = 0;
        let ghost start = out@;
        while k < buckets[e].len()
            invariant
                e < 65,
                buckets@.len() == 65,
                k <= buckets@[e as int]@.len(),
                out@ == start + buckets@[e as int]@.take(k as int),
            decreases buckets@[e as int]@.len() - k,
        {
            out.push(buckets[e][k]);
            assert(start + buckets@[e as int]@.take(k + 1) =~= (start + buckets@[e as int]@.take(k as int)).push(
                buckets@[e as int]@[k as int],
            ));
            k = k + 1;
        }
        assert(buckets@[e as int]@.take(buckets@[e as int]@.len() as int) =~= buckets@[e as int]@);
        e = e + 1;
    }
    out
}

/// The clustering after trying to merge along each pair in turn.
pub open spec fn merged_along<R: PairRule>(p: Partition, pairs: Seq<(usize, usize)>, rule: &R) -> Partition
    decreases pairs.len(),
{
    if pairs.len() == 0 {
        p
    } else {
        let q = merged_along(p, pairs.drop_last(), rule);
        q.try_merged(pairs.last().0, pairs.last().1, rule)
    }
}

/// How many of those merge attempts succeed.
pub open spec fn merges_along<R: PairRule>(p: Partition, pairs: Seq<(usize, usize)>, rule: &R) -> nat
    decreases pairs.len(),
{
    if pairs.len() == 0 {
        0
    } else {
        let q = merged_along(p, pairs.drop_last(), rule);
        merges_along(p, pairs.drop_last(), rule) + if q.can_merge(pairs.last().0, pairs.last().1, rule) {
            1nat
        } else {
            0nat
        }
    }
}

/// Tries to merge along each pair in turn; returns how many merges happened.
pub fn merge_along<R: PairRule>(clusters: &mut Clusters, pairs: &Vec<(usize, usize)>, rule: &R) -> (count: u64)
    requires
        old(clusters).wf(),
        pairs_within(pairs@, old(clusters)@.index.len()),
        old(clusters)@.index.len() <= rule.spec_size(),
    ensures
        final(clusters).wf(),
        final(clusters)@ == merged_along(old(clusters)@, pairs@, rule),
        count == merges_along(old(clusters)@, pairs@, rule),
        final(clusters)@.index.len() == old(clusters)@.index.len(),
        final(clusters)@.members.len() == old(clusters)@.members.len(),
{
    let ghost p = clusters@;
    let mut count: u64 = 0;
    let mut k: usize = 0;
    while k < pairs.len()
        invariant
            clusters.wf(),
            clusters@ == merged_along(p, pairs@.take(k as int), rule),
            count == merges_along(p, pairs@.take(k as int), rule),
            count <= k,
            k <= pairs@.len(),
            pairs_within(pairs@, p.index.len()),
            clusters@.index.len() == p.index.len(),
            clusters@.members.len() == p.members.len(),
            p.index.len() <= rule.spec_size(),
        decreases pairs@.len() - k,
    {
        let q = pairs[k];
        assert(pairs@.take(k + 1).drop_last() =~= pairs@.take(k as int));
        assert(pairs@.take(k + 1).last() == q);
        assert(pairs_within(pairs@, p.index.len()) ==> pairs@[k as int].0 < p.index.len());
        let merged = clusters.try_merge(q.0, q.1, rule);
        if merged {
            count = count + 1;
        }
        k = k + 1;
    }
    assert(pairs@.take(pairs@.len() as int) =~= pairs@);
    count
}

/// The position of the first `v` in `s`, if any.
pub open spec fn first_index<T>(s: Seq<T>, v: T) -> Option<nat>
    decreases s.len(),
{
    if s.len() == 0 {
        None
    } else {
        match first_index(s.drop_last(), v) {
            Some(j) => Some(j),
            None => if s.last() == v {
                Some((s.len() - 1) as nat)
            } else {
                None
            },
        }
    }
}

/// `first_index` finds the earliest occurrence, and finds nothing only when
/// there is none.
pub proof fn lemma_first_index<T>(s: Seq<T>, v: T)
    ensures
        match first_index(s, v) {
            Some(j) => j < s.len() && s[j as int] == v && forall|k: int| 0 <= k < j ==> s[k] != v,
            None => forall|k: int| 0 <= k < s.len() ==> s[k] != v,
        },
    decreases s.len(),
{
    if s.len() > 0 {
        lemma_first_index(s.drop_last(), v);
        match first_index(s.drop_last(), v) {
            Some(j) => {
                assert(s[j as int] == s.drop_last()[j as int]);
                assert forall|k: int| 0 <= k < j implies s[k] != v by {
                    assert(s[k] == s.drop_last()[k]);
                }
            },
            None => {
                assert forall|k: int| 0 <= k < s.len() - 1 implies s[k] != v by {
                    assert(s[k] == s.drop_last()[k]);
                }
            },
        }
    }
}

/// The MD5 text of a file, when it has one.
pub open spec fn md5_key(o: Option<String>) -> Option<Seq<char>> {
    match o {
        Some(s) => Some(s@),
        None => None,
    }
}

pub open spec fn md5_keys(v: Seq<Option<String>>) -> Seq<Option<Seq<char>>> {
    v.map_values(|o: Option<String>| md5_key(o))
}

/// Files `0..k` in turn: a file with an MD5 already seen among the files
/// before it joins the cluster of the first of them.
pub open spec fn md5_merged_upto(p: Partition, keys: Seq<Option<Seq<char>>>, k: nat) -> Partition
    decreases k,
{
    if k == 0 {
        p
    } else {
        let q = md5_merged_upto(p, keys, (k - 1) as nat);
        let i = k - 1;
        match keys[i] {
            None => q,
            Some(_) => match first_index(keys.take(i), keys[i]) {
                Some(j) => q.force_merged(j as usize, i as usize),
                None => q,
            },
        }
    }
}

proof fn lemma_md5_merged_len(p: Partition, keys: Seq<Option<Seq<char>>>, k: nat)
    ensures
        md5_merged_upto(p, keys, k).index.len() == p.index.len(),
    decreases k,
{
    if k > 0 {
        lemma_md5_merged_len(p, keys, (k - 1) as nat);
    }
}

/// The last file of `k` joins the cluster of the first earlier file with
/// its MD5, and files that shared a cluster still do.
proof fn lemma_md5_merged_step(p: Partition, keys: Seq<Option<Seq<char>>>, k: nat, x: int, y: int)
    requires
        0 < k <= keys.len(),
        k <= p.index.len(),
        p.index.len() <= usize::MAX,
        0 <= x < k,
        0 <= y < k - 1,
        keys[x] is Some,
        keys[x] == keys[y],
        x == k - 1 || md5_merged_upto(p, keys, (k - 1) as nat).index[x] == md5_merged_upto(
            p,
            keys,
            (k - 1) as nat,
        ).index[y],
        x == k - 1 ==> forall|z: int|
            0 <= z < k - 1 && keys[z] == keys[x] ==> md5_merged_upto(p, keys, (k - 1) as nat).index[z]
                == md5_merged_upto(p, keys, (k - 1) as nat).index[y],
    ensures
        md5_merged_upto(p, keys, k).index[x] == md5_merged_upto(p, keys, k).index[y],
{
    let i = k - 1;
    let q = md5_merged_upto(p, keys, (k - 1) as nat);
    let r = md5_merged_upto(p, keys, k);
    lemma_md5_merged_len(p, keys, (k - 1) as nat);
    let t = keys.take(i);
    lemma_first_index(t, keys[i]);
    if keys[i] is Some {
        if x == i {
            assert(t[y] == keys[i]);
        }
        match first_index(t, keys[i]) {
            Some(j) => {
                assert(keys[j as int] == t[j as int]);
                assert(r == q.force_merged(j as usize, i as usize));
                let ca = q.index[j as int];
                let cb = q.index[i];
                if x == i {
                    assert(q.index[j as int] == q.index[y]);
                }
                if ca != cb {
                    assert(r.index == crate::clusters::relabel(q.index, cb, ca));
                    assert(r.index[x] == (if q.index[x] == cb { ca } else { q.index[x] }));
                    assert(r.index[y] == (if q.index[y] == cb { ca } else { q.index[y] }));
                }
            },
            None => {
                assert(r == q);
            },
        }
    } else {
        assert(r == q);
    }
}

/// Files with the same MD5 share a cluster once the first `k` files are
/// joined.
proof fn lemma_md5_merged_same(p: Partition, keys: Seq<Option<Seq<char>>>, k: nat, x: int, y: int)
    requires
        k <= keys.len(),
        k <= p.index.len(),
        p.index.len() <= usize::MAX,
        0 <= x < k,
        0 <= y < k,
        keys[x] is Some,
        keys[x] == keys[y],
    ensures
        md5_merged_upto(p, keys, k).index[x] == md5_merged_upto(p, keys, k).index[y],
    decreases k,
{
    let i = k - 1;
    if x == y {
    } else if x < i && y < i {
        lemma_md5_merged_same(p, keys, (k - 1) as nat, x, y);
        lemma_md5_merged_step(p, keys, k, x, y);
    } else if x == i {
        assert forall|z: int| 0 <= z < k - 1 && keys[z] == keys[x] implies md5_merged_upto(p, keys, (k - 1) as nat).index[z]
            == md5_merged_upto(p, keys, (k - 1) as nat).index[y] by {
            lemma_md5_merged_same(p, keys, (k - 1) as nat, z, y);
        }
        lemma_md5_merged_step(p, keys, k, x, y);
    } else {
        assert forall|z: int| 0 <= z < k - 1 && keys[z] == keys[y] implies md5_merged_upto(p, keys, (k - 1) as nat).index[z]
            == md5_merged_upto(p, keys, (k - 1) as nat).index[x] by {
            lemma_md5_merged_same(p, keys, (k - 1) as nat, z, x);
        }
        lemma_md5_merged_step(p, keys, k, y, x);
    }
}

/// Pictures with the same MD5 always end up in one cluster after the exact
/// duplicate stage.
pub proof fn lemma_md5_stage_joins_identical(n: nat, keys: Seq<Option<Seq<char>>>, x: int, y: int)
    requires
        keys.len() == n,
        n <= usize::MAX,
        0 <= x < n,
        0 <= y < n,
        keys[x] is Some,
        keys[x] == keys[y],
    ensures
        md5_stage(n, keys).index[x] == md5_stage(n, keys).index[y],
{
    lemma_md5_merged_same(Partition::singletons(n), keys, n, x, y);
}

/// First occurrences stay first when a sequence grows.
proof fn lemma_first_index_push<T>(s: Seq<T>, x: T, v: T)
    ensures
        first_index(s.push(x), v) == (match first_index(s, v) {
            Some(j) => Some(j),
            None => if x == v {
                Some(s.len())
            } else {
                None
            },
        }),
{
    assert(s.push(x).drop_last() =~= s);
}

/// Stage 0: files with the same MD5 are joined unconditionally, each into the
/// cluster of the first file with that MD5.
pub fn merge_identical_md5(clusters: &mut Clusters, md5s: &Vec<Option<String>>)
    requires
        old(clusters).wf(),
        md5s@.len() == old(clusters)@.index.len(),
    ensures
        final(clusters).wf(),
        final(clusters)@ == md5_merged_upto(old(clusters)@, md5_keys(md5s@), md5s@.len()),
        final(clusters)@.index.len() == old(clusters)@.index.len(),
        final(clusters)@.members.len() == old(clusters)@.members.len(),
{
    let ghost p = clusters@;
    let ghost keys = md5_keys(md5s@);
    let n = md5s.len();
    let mut first: vstd::hash_map::StringHashMap<usize> = vstd::hash_map::StringHashMap::new();
    let mut i: usize = 0;
    while i < n
        invariant
            n == md5s@.len(),
            n == p.index.len(),
            i <= n,
            keys == md5_keys(md5s@),
            clusters.wf(),
            clusters@ == md5_merged_upto(p, keys, i as nat),
            clusters@.index.len() == p.index.len(),
            clusters@.members.len() == p.members.len(),
            forall|k: Seq<char>| #[trigger] first@.contains_key(k) <==> first_index(keys.take(i as int), Some(k)) is Some,
            forall|k: Seq<char>|
                #[trigger] first@.contains_key(k) ==> first_index(keys.take(i as int), Some(k)) == Some(
                    first@[k] as nat,
                ),
        decreases n - i,
    {
        let ghost pre = keys.take(i as int);
        assert(keys.take(i + 1) =~= pre.push(keys[i as int]));
        assert(keys[i as int] == md5_key(md5s@[i as int]));
        proof {
            lemma_first_index(pre, keys[i as int]);
        }
        match &md5s[i] {
            Some(m) => {
                let found = first.get(m.as_str());
                match found {
                    Some(j) => {
                        let j = *j;
                        proof {
                            lemma_first_index(pre, Some(m@));
                        }
                        clusters.force_merge(j, i);
                    },
                    None => {
                        first.insert(m.clone(), i);
                    },
                }
                proof {
                    assert forall|k: Seq<char>| #[trigger] first@.contains_key(k) <==> first_index(
                        keys.take(i + 1),
                        Some(k),
                    ) is Some by {
                        lemma_first_index_push(pre, keys[i as int], Some(k));
                    }
                    assert forall|k: Seq<char>| #[trigger] first@.contains_key(k) implies first_index(
                        keys.take(i + 1),
                        Some(k),
                    ) == Some(first@[k] as nat) by {
                        lemma_first_index_push(pre, keys[i as int], Some(k));
                    }
                }
            },
            None => {
                proof {
                    assert forall|k: Seq<char>| #[trigger] first@.contains_key(k) <==> first_index(
                        keys.take(i + 1),
                        Some(k),
                    ) is Some by {
                        lemma_first_index_push(pre, keys[i as int], Some(k));
                    }
                    assert forall|k: Seq<char>| #[trigger] first@.contains_key(k) implies first_index(
                        keys.take(i + 1),
                        Some(k),
                    ) == Some(first@[k] as nat) by {
                        lemma_first_index_push(pre, keys[i as int], Some(k));
                    }
                }
            },
        }
        i = i + 1;
    }
}

/// A test that decides, from a group and one of its members, whether the
/// member leaves the group.
pub trait MemberTest {
    spec fn spec_size(&self) -> nat;

    spec fn spec_evicts(&self, group: Seq<usize>, m: usize) -> bool;

    fn evicts(&self, group: &Vec<usize>, m: usize) -> (r: bool)
        requires
            forall|k: int| 0 <= k < group@.len() ==> (#[trigger] group@[k] as nat) < self.spec_size(),
            (m as nat) < self.spec_size(),
        ensures
            r == self.spec_evicts(group@, m),
    ;
}

/// A member leaves when some other member of its group is more than
/// `max_distance` bits away from it.
pub struct PhashSpread<'a> {
    pub hashes: &'a Vec<i64>,
    pub max_distance: u32,
}

impl<'a> MemberTest for PhashSpread<'a> {
    open spec fn spec_size(&self) -> nat {
        self.hashes@.len()
    }

    open spec fn spec_evicts(&self, group: Seq<usize>, m: usize) -> bool {
        exists|k: int|
            0 <= k < group.len() && group[k] != m && hamming(self.hashes@[m as int], self.hashes@[#[trigger] group[k] as int])
                > self.max_distance
    }

    fn evicts(&self, group: &Vec<usize>, m: usize) -> (r: bool) {
        let mut k: usize = 0;
        while k < group.len()
            invariant
                k <= group@.len(),
                forall|q: int| 0 <= q < group@.len() ==> (#[trigger] group@[q] as nat) < self.hashes@.len(),
                (m as nat) < self.hashes@.len(),
                forall|q: int|
                    0 <= q < k ==> !(group@[q] != m && hamming(self.hashes@[m as int], self.hashes@[#[trigger] group@[q] as int])
                        > self.max_distance),
            decreases group@.len() - k,
        {
            let o = group[k];
            if o != m {
                let d = hamming_distance(self.hashes[m], self.hashes[o]);
                if d > self.max_distance {
                    return true;
                }
            }
            k = k + 1;
        }
        false
    }
}

/// The members of `group` that `test` sends away, in group order.
pub open spec fn marked<T: MemberTest>(test: &T, group: Seq<usize>, upto: nat) -> Seq<usize>
    decreases upto,
{
    if upto == 0 {
        Seq::empty()
    } else {
        let prev = marked(test, group, (upto - 1) as nat);
        if test.spec_evicts(group, group[upto - 1]) {
            prev.push(group[upto - 1])
        } else {
            prev
        }
    }
}

/// The members to send away from the first `k` groups, group after group
/// (groups of fewer than two members are passed over).
pub open spec fn eviction_list<T: MemberTest>(test: &T, groups: Seq<Seq<usize>>, k: nat) -> Seq<usize>
    decreases k,
{
    if k == 0 {
        Seq::empty()
    } else {
        let g = groups[k - 1];
        eviction_list(test, groups, (k - 1) as nat) + if g.len() < 2 {
            Seq::empty()
        } else {
            marked(test, g, g.len())
        }
    }
}

/// The clustering after evicting each of `ms` in turn.
pub open spec fn evicted_all(p: Partition, ms: Seq<usize>) -> Partition
    decreases ms.len(),
{
    if ms.len() == 0 {
        p
    } else {
        evicted_all(p, ms.drop_last()).evicted(ms.last())
    }
}

/// The clustering after one pruning pass: from every group of the current
/// clustering the members `test` sends away are split off.
pub open spec fn pruned<T: MemberTest>(p: Partition, test: &T) -> Partition {
    evicted_all(p, eviction_list(test, p.groups(), p.groups().len()))
}

/// A pruning pass (the in-group validation after merging).
pub fn prune<T: MemberTest>(clusters: &mut Clusters, test: &T)
    requires
        old(clusters).wf(),
        old(clusters)@.index.len() <= test.spec_size(),
    ensures
        final(clusters).wf(),
        final(clusters)@ == pruned(old(clusters)@, test),
        final(clusters)@.index.len() == old(clusters)@.index.len(),
{
    let ghost p = clusters@;
    let groups = clusters.get_groups();
    proof {
        crate::clusters::lemma_groups_partition(p);
    }
    let ghost gs = p.groups();
    let mut g: usize = 0;
    assert(evicted_all(p, eviction_list(test, gs, 0)) == p);
    while g < groups.len()
        invariant
            p.wf(),
            gs == p.groups(),
            groups@.len() == gs.len(),
            forall|q: int| 0 <= q < groups@.len() ==> (#[trigger] groups@[q])@ == gs[q],
            forall|q: int, x: int|
                0 <= q < gs.len() && 0 <= x < gs[q].len() ==> (#[trigger] gs[q][x]) < p.index.len(),
            p.index.len() <= test.spec_size(),
            g <= groups@.len(),
            clusters.wf(),
            clusters@ == evicted_all(p, eviction_list(test, gs, g as nat)),
            clusters@.index.len() == p.index.len(),
        decreases groups@.len() - g,
    {
        let group = &groups[g];
        let ghost gv = gs[g as int];
        assert(group@ == gv);
        if group.len() >= 2 {
            let mut to_evict: Vec<usize> = Vec::new();
            let mut k: usize = 0;
            while k < group.len()
                invariant
                    group@ == gv,
                    forall|x: int| 0 <= x < gv.len() ==> (#[trigger] gv[x]) < p.index.len(),
                    p.index.len() <= test.spec_size(),
                    k <= gv.len(),
                    to_evict@ == marked(test, gv, k as nat),
                decreases gv.len() - k,
            {
                let m = group[k];
                assert(gv[k as int] == m);
                if test.evicts(group, m) {
                    to_evict.push(m);
                }
                k = k + 1;
            }
            let ghost base = eviction_list(test, gs, g as nat);
            let mut e: usize = 0;
            while e < to_evict.len()
                invariant
                    e <= to_evict@.len(),
                    to_evict@ == marked(test, gv, gv.len()),
                    clusters.wf(),
                    clusters@ == evicted_all(p, base + to_evict@.take(e as int)),
                    clusters@.index.len() == p.index.len(),
                    forall|x: int| 0 <= x < gv.len() ==> (#[trigger] gv[x]) < p.index.len(),
                decreases to_evict@.len() - e,
            {
                let m = to_evict[e];
                proof {
                    lemma_marked_members(test, gv, gv.len());
                    assert(gv.take(gv.len() as int) =~= gv);
                    assert(gv.contains(to_evict@[e as int]));
                    let x = choose|x: int| 0 <= x < gv.len() && gv[x] == m;
                    assert(gv[x] < p.index.len());
                }
                assert((base + to_evict@.take(e + 1)).drop_last() =~= base + to_evict@.take(e as int));
                assert((base + to_evict@.take(e + 1)).last() == m);
                clusters.evict(m);
                e = e + 1;
            }
            assert(to_evict@.take(to_evict@.len() as int) =~= to_evict@);
        } else {
            assert(base_plus_empty(eviction_list(test, gs, g as nat)));
        }
        g = g + 1;
    }
}

spec fn base_plus_empty(s: Seq<usize>) -> bool {
    s + Seq::<usize>::empty() == s
}

/// The marked members come from the group, in group order, without repeats
/// when the group has none; a member is marked exactly when the test sends
/// it away.
pub proof fn lemma_marked_members<T: MemberTest>(test: &T, group: Seq<usize>, upto: nat)
    requires
        upto <= group.len(),
    ensures
        forall|x: int| 0 <= x < marked(test, group, upto).len() ==> #[trigger] group.take(upto as int).contains(
            marked(test, group, upto)[x],
        ),
        forall|x: int| 0 <= x < marked(test, group, upto).len() ==> test.spec_evicts(
            group,
            #[trigger] marked(test, group, upto)[x],
        ),
        forall|x: int|
            0 <= x < upto && test.spec_evicts(group, group[x]) ==> #[trigger] marked(test, group, upto).contains(
                group[x],
            ),
        group.no_duplicates() ==> marked(test, group, upto).no_duplicates(),
    decreases upto,
{
    if upto > 0 {
        let u = (upto - 1) as nat;
        lemma_marked_members(test, group, u);
        let prev = marked(test, group, u);
        let t0 = group.take(u as int);
        let t1 = group.take(upto as int);
        assert(t1.drop_last() =~= t0);
        crate::clusters::lemma_contains_last(t1);
        crate::clusters::lemma_contains_push(prev, group[u as int]);
        if group.no_duplicates() && test.spec_evicts(group, group[u as int]) {
            assert(!prev.contains(group[u as int])) by {
                if prev.contains(group[u as int]) {
                    let x = choose|x: int| 0 <= x < prev.len() && prev[x] == group[u as int];
                    assert(t0.contains(prev[x]));
                    let y = choose|y: int| 0 <= y < t0.len() && t0[y] == group[u as int];
                    assert(group[y] == group[u as int]);
                }
            }
            let np = prev.push(group[u as int]);
            assert forall|a: int, b: int| 0 <= a < np.len() && 0 <= b < np.len() && a != b implies np[a] != np[b] by {
                if a == prev.len() as int {
                    assert(prev.contains(np[b]));
                } else if b == prev.len() as int {
                    assert(prev.contains(np[a]));
                }
            }
        }
    }
}

/// Distinct values below `n` number at most `n`.
pub proof fn lemma_distinct_below(s: Seq<usize>, n: nat)
    requires
        s.no_duplicates(),
        forall|k: int| 0 <= k < s.len() ==> (#[trigger] s[k] as nat) < n,
    ensures
        s.len() <= n,
    decreases n,
{
    if n == 0 {
        if s.len() > 0 {
            assert((s[0] as nat) < 0);
        }
    } else {
        let top = (n - 1) as usize;
        let t = crate::clusters::drop_value(s, top);
        crate::clusters::lemma_drop_value(s, top);
        assert forall|k: int| 0 <= k < t.len() implies (#[trigger] t[k] as nat) < (n - 1) as nat by {
            assert(t.contains(t[k]));
            assert(s.contains(t[k]));
            let j = choose|j: int| 0 <= j < s.len() && s[j] == t[k];
            assert((s[j] as nat) < n);
        }
        lemma_distinct_below(t, (n - 1) as nat);
    }
}

/// What the eviction list holds: members of the groups passed only (so
/// below `n`, and in none of the later groups), no repeats when the groups
/// are disjoint and repeat-free, and every member that the test sends away
/// from a group of two or more.
pub proof fn lemma_eviction_list<T: MemberTest>(test: &T, gs: Seq<Seq<usize>>, k: nat, n: nat)
    requires
        k <= gs.len(),
        forall|q: int| 0 <= q < gs.len() ==> (#[trigger] gs[q]).no_duplicates(),
        forall|q: int, x: int| 0 <= q < gs.len() && 0 <= x < gs[q].len() ==> (#[trigger] gs[q][x] as nat) < n,
        forall|q1: int, q2: int, x: int, y: int|
            0 <= q1 < gs.len() && 0 <= q2 < gs.len() && q1 != q2 && 0 <= x < gs[q1].len() && 0 <= y < gs[q2].len()
                ==> #[trigger] gs[q1][x] != #[trigger] gs[q2][y],
    ensures
        forall|i: int|
            0 <= i < eviction_list(test, gs, k).len() ==> (#[trigger] eviction_list(test, gs, k)[i] as nat) < n,
        forall|i: int, q: int|
            0 <= i < eviction_list(test, gs, k).len() && k <= q < gs.len() ==> !#[trigger] gs[q].contains(
                #[trigger] eviction_list(test, gs, k)[i],
            ),
        eviction_list(test, gs, k).no_duplicates(),
        forall|q: int, x: int|
            0 <= q < k && 0 <= x < gs[q].len() && gs[q].len() >= 2 && test.spec_evicts(gs[q], gs[q][x])
                ==> #[trigger] eviction_list(test, gs, k).contains(gs[q][x]),
    decreases k,
{
    if k > 0 {
        let km = (k - 1) as nat;
        lemma_eviction_list(test, gs, km, n);
        let a = eviction_list(test, gs, km);
        let g = gs[km as int];
        let b = if g.len() < 2 {
            Seq::<usize>::empty()
        } else {
            marked(test, g, g.len())
        };
        let l = eviction_list(test, gs, k);
        assert(l == a + b);
        lemma_marked_members(test, g, g.len());
        assert(g.take(g.len() as int) =~= g);
        assert forall|j: int| 0 <= j < b.len() implies #[trigger] g.contains(b[j]) by {
        }
        assert forall|i: int| 0 <= i < l.len() implies (#[trigger] l[i] as nat) < n by {
            if i < a.len() {
                assert(l[i] == a[i]);
            } else {
                assert(l[i] == b[i - a.len()]);
                assert(g.contains(b[i - a.len()]));
                let x = choose|x: int| 0 <= x < g.len() && g[x] == b[i - a.len()];
                assert((gs[km as int][x] as nat) < n);
            }
        }
        assert forall|i: int, q: int| 0 <= i < l.len() && k <= q < gs.len() implies !#[trigger] gs[q].contains(
            #[trigger] l[i],
        ) by {
            if i < a.len() {
                assert(l[i] == a[i]);
                assert(!gs[q].contains(a[i]));
            } else {
                assert(l[i] == b[i - a.len()]);
                assert(g.contains(b[i - a.len()]));
                let x = choose|x: int| 0 <= x < g.len() && g[x] == b[i - a.len()];
                if gs[q].contains(l[i]) {
                    let y = choose|y: int| 0 <= y < gs[q].len() && gs[q][y] == l[i];
                    assert(gs[km as int][x] != gs[q][y]);
                }
            }
        }
        assert(b.no_duplicates());
        assert forall|i: int, j: int| 0 <= i < a.len() && 0 <= j < b.len() implies a[i] != b[j] by {
            assert(g.contains(b[j]));
            assert(!gs[km as int].contains(a[i]));
        }
        crate::clusters::lemma_concat_no_duplicates(a, b);
        assert forall|q: int, x: int|
            0 <= q < k && 0 <= x < gs[q].len() && gs[q].len() >= 2 && test.spec_evicts(gs[q], gs[q][x]) implies #[trigger] l.contains(
            gs[q][x],
        ) by {
            if q < km {
                assert(a.contains(gs[q][x]));
                let i = choose|i: int| 0 <= i < a.len() && a[i] == gs[q][x];
                assert(l[i] == a[i]);
            } else {
                assert(b.contains(g[x]));
                let i = choose|i: int| 0 <= i < b.len() && b[i] == g[x];
                assert(l[a.len() + i] == b[i]);
            }
        }
    } else {
        assert(eviction_list(test, gs, 0).len() == 0);
    }
}

/// What holds after evicting the first `k` members of a repeat-free list:
/// old clusters only shrink, an old cluster still holding two or more
/// elements holds none of the evicted, and every new cluster holds one.
pub proof fn lemma_evictions(p: Partition, l: Seq<usize>, k: nat)
    requires
        p.wf(),
        k <= l.len(),
        forall|i: int| 0 <= i < l.len() ==> (#[trigger] l[i] as int) < p.index.len(),
        l.no_duplicates(),
        p.members.len() + l.len() < usize::MAX,
    ensures
        evicted_all(p, l.take(k as int)).wf(),
        evicted_all(p, l.take(k as int)).index.len() == p.index.len(),
        p.members.len() <= evicted_all(p, l.take(k as int)).members.len() <= p.members.len() + k,
        forall|c: int, x: usize|
            0 <= c < p.members.len() && #[trigger] evicted_all(p, l.take(k as int)).members[c].contains(x)
                ==> p.members[c].contains(x),
        forall|c: int, x: usize|
            0 <= c < p.members.len() && evicted_all(p, l.take(k as int)).members[c].len() >= 2
                && #[trigger] evicted_all(p, l.take(k as int)).members[c].contains(x) ==> !l.take(k as int).contains(x),
        forall|c: int|
            p.members.len() <= c < evicted_all(p, l.take(k as int)).members.len() ==> (#[trigger] evicted_all(
                p,
                l.take(k as int),
            ).members[c]).len() == 1,
    decreases k,
{
    if k == 0 {
        assert(l.take(0) =~= Seq::<usize>::empty());
    } else {
        let km = (k - 1) as nat;
        lemma_evictions(p, l, km);
        let t0 = l.take(km as int);
        let t1 = l.take(k as int);
        assert(t1.drop_last() =~= t0);
        let m = l[km as int];
        assert(t1.last() == m);
        let s = evicted_all(p, t0);
        let s2 = evicted_all(p, t1);
        assert(s2 == s.evicted(m));
        crate::clusters::lemma_contains_last(t1);
        let cm = s.index[m as int];
        assert((m as int) < s.index.len());
        assert(s.members[s.index[m as int] as int].contains((m as int) as usize));
        assert(s.members[cm as int].contains(m));
        crate::clusters::lemma_evicted_wf(s, m);
        if s.members[cm as int].len() <= 1 {
            assert forall|c: int, x: usize|
                0 <= c < p.members.len() && s2.members[c].len() >= 2 && #[trigger] s2.members[c].contains(x)
                    implies !t1.contains(x) by {
                if x == m {
                    let j = choose|j: int| 0 <= j < s.members[c].len() && s.members[c][j] == x;
                    assert(s.index[s.members[c][j] as int] == c);
                }
            }
        } else {
            let oc = s.members[cm as int];
            crate::clusters::lemma_drop_value(oc, m);
            assert((cm as int) < p.members.len());
            assert forall|c: int, x: usize|
                0 <= c < p.members.len() && #[trigger] s2.members[c].contains(x) implies p.members[c].contains(x) by {
                if c == cm as int {
                    assert(oc.contains(x));
                } else {
                    assert(s2.members[c] == s.members[c]);
                }
            }
            assert forall|c: int, x: usize|
                0 <= c < p.members.len() && s2.members[c].len() >= 2 && #[trigger] s2.members[c].contains(x)
                    implies !t1.contains(x) by {
                if c == cm as int {
                    assert(oc.contains(x));
                } else {
                    assert(s2.members[c] == s.members[c]);
                    if x == m {
                        let j = choose|j: int| 0 <= j < s.members[c].len() && s.members[c][j] == x;
                        assert(s.index[s.members[c][j] as int] == c);
                    }
                }
            }
            assert forall|c: int| p.members.len() <= c < s2.members.len() implies (#[trigger] s2.members[c]).len()
                == 1 by {
                if c == s.members.len() as int {
                    assert(s2.members[c] == seq![m]);
                } else {
                    assert(s2.members[c] == s.members[c]);
                }
            }
        }
    }
}

/// After a pruning pass with the hash-spread test, every cluster is tight:
/// any two members of a group are at most `max_distance` bits apart.
pub proof fn lemma_pruned_groups_are_tight(p: Partition, spread: &PhashSpread, rule: &PhashRule)
    requires
        p.wf(),
        p.index.len() <= spread.hashes@.len(),
        rule.hashes@ == spread.hashes@,
        rule.max_distance == spread.max_distance,
        p.members.len() + p.index.len() < usize::MAX,
    ensures
        pruned(p, spread).cliques(rule),
{
    let gs = p.groups();
    crate::clusters::lemma_groups_partition(p);
    assert forall|q: int| 0 <= q < gs.len() implies (#[trigger] gs[q]).no_duplicates() by {
        assert(gs[q].len() >= 2);
        assert((gs[q][0] as int) < p.index.len());
        assert(p.members[p.index[gs[q][0] as int] as int] == gs[q]);
    }
    let l = eviction_list(spread, gs, gs.len());
    lemma_eviction_list(spread, gs, gs.len(), p.index.len());
    assert forall|i: int| 0 <= i < l.len() implies (#[trigger] l[i] as int) < p.index.len() by {
        assert((l[i] as nat) < p.index.len());
    }
    lemma_distinct_below(l, p.index.len());
    lemma_evictions(p, l, l.len());
    assert(l.take(l.len() as int) =~= l);
    let s = pruned(p, spread);
    assert(s == evicted_all(p, l.take(l.len() as int)));
    assert forall|c: int, x: int, y: int|
        0 <= c < s.members.len() && 0 <= x < s.members[c].len() && 0 <= y < s.members[c].len() && x != y implies #[trigger] rule.spec_holds(
        s.members[c][x],
        s.members[c][y],
    ) by {
        let vx = s.members[c][x];
        let vy = s.members[c][y];
        assert(s.members[c].no_duplicates());
        assert(vx != vy);
        assert(c < p.members.len());
        assert(s.members[c].contains(vx));
        assert(s.members[c].contains(vy));
        assert(p.members[c].contains(vx));
        assert(p.members[c].contains(vy));
        assert(p.members[c].len() >= 2) by {
            if p.members[c].len() < 2 {
                let i = choose|i: int| 0 <= i < p.members[c].len() && p.members[c][i] == vx;
                let j = choose|j: int| 0 <= j < p.members[c].len() && p.members[c][j] == vy;
            }
        }
        assert(!l.contains(vx));
        let i = choose|i: int| 0 <= i < p.members[c].len() && p.members[c][i] == vx;
        assert(p.index[vx as int] == c);
        assert(p.members[p.index[vx as int] as int].len() >= 2);
        let g = choose|g: int| 0 <= g < gs.len() && #[trigger] gs[g].contains(vx as usize);
        let gx = choose|gx: int| 0 <= gx < gs[g].len() && gs[g][gx] == vx;
        assert(p.members[p.index[gs[g][gx] as int] as int] == gs[g]);
        assert(gs[g] == p.members[c]);
        assert(!spread.spec_evicts(gs[g], gs[g][gx]));
        let j = choose|j: int| 0 <= j < p.members[c].len() && p.members[c][j] == vy;
        assert(gs[g][j] == vy);
        assert(!(gs[g][j] != vx && hamming(spread.hashes@[vx as int], spread.hashes@[gs[g][j] as int])
            > spread.max_distance));
    }
}

/// The clustering after splitting, one after the other, the clusters of
/// the first `k` of the groups `gs` that hold more than `MAX_GROUP_SIZE`
/// members: each such cluster is replaced by its greedy subgroups under `rule`.
pub open spec fn split_oversized_upto<R: PairRule>(rule: &R, gs: Seq<Seq<usize>>, p: Partition, k: nat) -> Partition
    decreases k,
{
    if k == 0 {
        p
    } else {
        let s = split_oversized_upto(rule, gs, p, (k - 1) as nat);
        let g = gs[k - 1];
        if g.len() <= MAX_GROUP_SIZE {
            s
        } else {
            let cid = s.index[g[0] as int];
            apply_split(s, cid, greedy_subgroups(rule, s.members[cid as int]))
        }
    }
}

/// The clustering after the oversized groups of `p` are split under `rule`.
pub open spec fn split_oversized<R: PairRule>(p: Partition, rule: &R) -> Partition {
    split_oversized_upto(rule, p.groups(), p, p.groups().len())
}

/// Splits every group of more than `MAX_GROUP_SIZE` members greedily into
/// subgroups that pass `rule` internally.
pub fn split_oversized_groups<R: PairRule>(clusters: &mut Clusters, rule: &R)
    requires
        old(clusters).wf(),
        old(clusters)@.index.len() <= rule.spec_size(),
    ensures
        final(clusters).wf(),
        final(clusters)@ == split_oversized(old(clusters)@, rule),
        final(clusters)@.index.len() == old(clusters)@.index.len(),
{
    let ghost p = clusters@;
    let groups = clusters.get_groups();
    proof {
        crate::clusters::lemma_groups_partition(p);
    }
    let ghost gs = p.groups();
    let mut g: usize = 0;
    while g < groups.len()
        invariant
            p.wf(),
            gs == p.groups(),
            groups@.len() == gs.len(),
            forall|q: int| 0 <= q < groups@.len() ==> (#[trigger] groups@[q])@ == gs[q],
            forall|q: int, x: int|
                0 <= q < gs.len() && 0 <= x < gs[q].len() ==> (#[trigger] gs[q][x]) < p.index.len(),
            p.index.len() <= rule.spec_size(),
            g <= groups@.len(),
            clusters.wf(),
            clusters@ == split_oversized_upto(rule, gs, p, g as nat),
            clusters@.index.len() == p.index.len(),
        decreases groups@.len() - g,
    {
        let group = &groups[g];
        assert(group@ == gs[g as int]);
        if group.len() > MAX_GROUP_SIZE {
            let g0 = group[0];
            assert(gs[g as int][0] < p.index.len());
            let cid = clusters.cluster_of(g0);
            let ghost s = clusters@;
            assert(s.members[s.index[g0 as int] as int].contains((g0 as int) as usize));
            let old_members = clusters.members_of(cid);
            assert forall|i: int| 0 <= i < old_members@.len() implies (#[trigger] old_members@[i] as nat) < rule.spec_size() by {
                assert(s.members[cid as int][i] < s.index.len());
            }
            let subs = greedy_split(rule, &old_members);
            proof {
                crate::clusters::lemma_greedy_subgroups(rule, old_members@);
            }
            clusters.split_cluster(cid, &subs);
        }
        g = g + 1;
    }
}

/// Splitting only ever adds clusters.
pub proof fn lemma_split_oversized_grows<R: PairRule>(rule: &R, gs: Seq<Seq<usize>>, p: Partition, k1: nat, k2: nat)
    requires
        k1 <= k2,
    ensures
        split_oversized_upto(rule, gs, p, k1).members.len() <= split_oversized_upto(rule, gs, p, k2).members.len(),
    decreases k2,
{
    if k1 < k2 {
        lemma_split_oversized_grows(rule, gs, p, k1, (k2 - 1) as nat);
        let s = split_oversized_upto(rule, gs, p, (k2 - 1) as nat);
        let g = gs[k2 - 1];
        if g.len() > MAX_GROUP_SIZE {
            let cid = s.index[g[0] as int];
            let subs = greedy_subgroups(rule, s.members[cid as int]);
            if subs.len() > 0 && (cid as int) < s.members.len() {
                assert(subs.skip(1).len() == subs.len() - 1);
                assert(s.members.update(cid as int, subs[0]).len() == s.members.len());
                assert(apply_split(s, cid, subs).members.len() == s.members.len() + subs.len() - 1);
            }
        }
    }
}

/// Splitting oversized groups keeps every cluster a clique of any rule it
/// was a clique of (the clusters only get smaller). `limit` is the number of
/// clusters at the end, which a machine always holds below `usize::MAX`.
pub proof fn lemma_split_oversized_keeps_cliques<R: PairRule, K: PairRule>(p: Partition, rule: &R, keep: &K, k: nat)
    requires
        p.wf(),
        k <= p.groups().len(),
        split_oversized(p, rule).members.len() <= usize::MAX,
        p.cliques(keep),
    ensures
        split_oversized_upto(rule, p.groups(), p, k).wf(),
        split_oversized_upto(rule, p.groups(), p, k).cliques(keep),
        split_oversized_upto(rule, p.groups(), p, k).index.len() == p.index.len(),
    decreases k,
{
    if k > 0 {
        let gs = p.groups();
        let km = (k - 1) as nat;
        lemma_split_oversized_keeps_cliques(p, rule, keep, km);
        crate::clusters::lemma_groups_partition(p);
        let s = split_oversized_upto(rule, gs, p, km);
        let g = gs[km as int];
        if g.len() > MAX_GROUP_SIZE {
            let g0 = g[0];
            assert(g0 < p.index.len());
            let cid = s.index[g0 as int];
            assert(s.members[s.index[g0 as int] as int].contains((g0 as int) as usize));
            let ms = s.members[cid as int];
            crate::clusters::lemma_greedy_subgroups(rule, ms);
            let subs = greedy_subgroups(rule, ms);
            lemma_split_oversized_grows(rule, gs, p, k, gs.len());
            assert(split_oversized_upto(rule, gs, p, k) == apply_split(s, cid, subs));
            crate::clusters::lemma_apply_split_wf(s, cid, subs);
            crate::clusters::lemma_apply_split_keeps_cliques(s, cid, subs, keep);
        }
    }
}

/// Splitting oversized groups leaves every cluster of at most
/// `MAX_GROUP_SIZE` members as it was: the same cluster number with the same
/// members, which still point to it. `split_oversized(p, rule)` holds no more
/// clusters than a machine can number.
pub proof fn lemma_split_oversized_keeps_small<R: PairRule>(p: Partition, rule: &R, k: nat)
    requires
        p.wf(),
        k <= p.groups().len(),
        split_oversized(p, rule).members.len() <= usize::MAX,
    ensures
        split_oversized_upto(rule, p.groups(), p, k).wf(),
        split_oversized_upto(rule, p.groups(), p, k).index.len() == p.index.len(),
        split_oversized_upto(rule, p.groups(), p, k).members.len() >= p.members.len(),
        forall|c: int|
            0 <= c < p.members.len() && p.members[c].len() <= MAX_GROUP_SIZE ==> #[trigger] split_oversized_upto(
                rule,
                p.groups(),
                p,
                k,
            ).members[c] == p.members[c],
        forall|c: int, x: int|
            0 <= c < p.members.len() && p.members[c].len() <= MAX_GROUP_SIZE && 0 <= x < p.members[c].len()
                ==> split_oversized_upto(rule, p.groups(), p, k).index[#[trigger] p.members[c][x] as int] == c,
    decreases k,
{
    let gs = p.groups();
    lemma_split_oversized_grows(rule, gs, p, k, gs.len());
    if k > 0 {
        let km = (k - 1) as nat;
        lemma_split_oversized_keeps_small(p, rule, km);
        crate::clusters::lemma_groups_partition(p);
        let s = split_oversized_upto(rule, gs, p, km);
        let g = gs[km as int];
        if g.len() > MAX_GROUP_SIZE {
            let g0 = g[0];
            assert(g0 < p.index.len());
            let cid = s.index[g0 as int];
            assert(s.members[s.index[g0 as int] as int].contains((g0 as int) as usize));
            let ms = s.members[cid as int];
            crate::clusters::lemma_greedy_subgroups(rule, ms);
            let subs = greedy_subgroups(rule, ms);
            assert(split_oversized_upto(rule, gs, p, k) == apply_split(s, cid, subs));
            crate::clusters::lemma_apply_split_wf(s, cid, subs);
            let r = apply_split(s, cid, subs);
            assert forall|c: int|
                0 <= c < p.members.len() && p.members[c].len() <= MAX_GROUP_SIZE implies #[trigger] r.members[c]
                == p.members[c] by {
                if c == cid as int {
                    let j = choose|j: int| 0 <= j < ms.len() && ms[j] == g0;
                    assert(p.members[c][j] == g0);
                    assert(p.index[g0 as int] == c);
                    assert(p.members[p.index[g[0] as int] as int] == g);
                }
                assert(r.members[c] == s.members[c]);
            }
        }
        let r = split_oversized_upto(rule, gs, p, k);
        assert forall|c: int, x: int|
            0 <= c < p.members.len() && p.members[c].len() <= MAX_GROUP_SIZE && 0 <= x < p.members[c].len() implies r.index[#[trigger] p.members[c][x] as int]
            == c by {
            assert(r.members[c] == p.members[c]);
            assert(r.members[c][x] == p.members[c][x]);
        }
    }
}

/// What the image-embedding comparison found for an ordered pair of
/// pictures: `similar` when both have a feature vector and their cosine
/// similarity reaches the threshold; `distant` when both have one and the
/// similarity falls below the threshold (and below the largest finite
/// similarity); `strong` when both have one and the similarity reaches the
/// stricter threshold used to split oversized groups.
#[derive(Clone, Copy)]
pub struct PairVerdict {
    pub similar: bool,
    pub distant: bool,
    pub strong: bool,
}

/// The embedding verdicts for `n` pictures: which have a feature vector, and
/// an `n` by `n` table of pair verdicts.
pub struct AiVerdicts {
    pub has_vector: Vec<bool>,
    pub table: Vec<Vec<PairVerdict>>,
}

impl AiVerdicts {
    /// One vector flag and one full row per picture.
    pub open spec fn shaped(&self) -> bool {
        &&& self.has_vector@.len() == self.table@.len()
        &&& forall|i: int| 0 <= i < self.table@.len() ==> (#[trigger] self.table@[i])@.len() == self.table@.len()
    }

    /// The number of pictures covered, or 0 when the table is not square.
    pub open spec fn size(&self) -> nat {
        if self.shaped() {
            self.table@.len()
        } else {
            0
        }
    }

    pub open spec fn verdict(&self, a: usize, b: usize) -> PairVerdict {
        self.table@[a as int]@[b as int]
    }

    /// Whether the table is square with one vector flag per row.
    pub fn is_shaped(&self) -> (r: bool)
        ensures
            r == self.shaped(),
    {
        let n = self.table.len();
        if self.has_vector.len() != n {
            return false;
        }
        let mut i: usize = 0;
        while i < n
            invariant
                n == self.table@.len(),
                i <= n,
                forall|k: int| 0 <= k < i ==> (#[trigger] self.table@[k])@.len() == n,
            decreases n - i,
        {
            if self.table[i].len() != n {
                return false;
            }
            i = i + 1;
        }
        true
    }
}

/// Two pictures pass when the embeddings call them similar.
pub struct AiRule<'a> {
    pub verdicts: &'a AiVerdicts,
}

impl<'a> PairRule for AiRule<'a> {
    open spec fn spec_size(&self) -> nat {
        self.verdicts.size()
    }

    open spec fn spec_holds(&self, a: usize, b: usize) -> bool {
        self.verdicts.verdict(a, b).similar
    }

    fn holds(&self, a: usize, b: usize) -> (r: bool) {
        self.verdicts.table[a][b].similar
    }
}

/// Two pictures pass when the embeddings call them strongly similar.
pub struct AiStrictRule<'a> {
    pub verdicts: &'a AiVerdicts,
}

impl<'a> PairRule for AiStrictRule<'a> {
    open spec fn spec_size(&self) -> nat {
        self.verdicts.size()
    }

    open spec fn spec_holds(&self, a: usize, b: usize) -> bool {
        self.verdicts.verdict(a, b).strong
    }

    fn holds(&self, a: usize, b: usize) -> (r: bool) {
        self.verdicts.table[a][b].strong
    }
}

/// Two pictures pass when their hashes are at most `max_distance` bits apart
/// and the embeddings call them similar.
pub struct SuspectRule<'a> {
    pub hashes: &'a Vec<i64>,
    pub max_distance: u32,
    pub verdicts: &'a AiVerdicts,
}

impl<'a> PairRule for SuspectRule<'a> {
    open spec fn spec_size(&self) -> nat {
        if self.hashes@.len() == self.verdicts.size() {
            self.hashes@.len()
        } else {
            0
        }
    }

    open spec fn spec_holds(&self, a: usize, b: usize) -> bool {
        &&& hamming(self.hashes@[a as int], self.hashes@[b as int]) <= self.max_distance
        &&& self.verdicts.verdict(a, b).similar
    }

    fn holds(&self, a: usize, b: usize) -> (r: bool) {
        let close = hamming_distance(self.hashes[a], self.hashes[b]) <= self.max_distance;
        close && self.verdicts.table[a][b].similar
    }
}

/// A member leaves its group when it has no feature vector, or when the
/// embeddings find it distant from some other member.
pub struct AiSpread<'a> {
    pub verdicts: &'a AiVerdicts,
}

impl<'a> MemberTest for AiSpread<'a> {
    open spec fn spec_size(&self) -> nat {
        self.verdicts.size()
    }

    open spec fn spec_evicts(&self, group: Seq<usize>, m: usize) -> bool {
        ||| !self.verdicts.has_vector@[m as int]
        ||| exists|k: int| 0 <= k < group.len() && group[k] != m && #[trigger] self.verdicts.verdict(m, group[k]).distant
    }

    fn evicts(&self, group: &Vec<usize>, m: usize) -> (r: bool) {
        if !self.verdicts.has_vector[m] {
            return true;
        }
        let mut k: usize = 0;
        while k < group.len()
            invariant
                k <= group@.len(),
                self.verdicts.shaped(),
                forall|q: int| 0 <= q < group@.len() ==> (#[trigger] group@[q] as nat) < self.verdicts.table@.len(),
                (m as nat) < self.verdicts.table@.len(),
                forall|q: int|
                    0 <= q < k ==> !(group@[q] != m && #[trigger] self.verdicts.verdict(m, group@[q]).distant),
            decreases group@.len() - k,
        {
            let o = group[k];
            if o != m && self.verdicts.table[m][o].distant {
                assert(self.verdicts.verdict(m, group@[k as int]).distant);
                return true;
            }
            k = k + 1;
        }
        false
    }
}

/// Whether some pair of `pairs` names `m`.
pub open spec fn touches(pairs: Seq<(usize, usize)>, m: usize) -> bool {
    exists|k: int| 0 <= k < pairs.len() && ((#[trigger] pairs[k]).0 == m || pairs[k].1 == m)
}

/// Which pictures need a feature vector: those in a group of two or more,
/// and those named by a suspect pair.
pub fn vector_demand(clusters: &Clusters, suspects: &Vec<(usize, usize)>) -> (need: Vec<bool>)
    requires
        clusters.wf(),
        pairs_within(suspects@, clusters@.index.len()),
    ensures
        need@.len() == clusters@.index.len(),
        forall|m: int|
            0 <= m < need@.len() ==> #[trigger] need@[m] == (clusters@.members[clusters@.index[m] as int].len() >= 2
                || touches(suspects@, m as usize)),
{
    let ghost p = clusters@;
    let n = clusters.len();
    let mut need: Vec<bool> = Vec::new();
    let mut m: usize = 0;
    while m < n
        invariant
            clusters.wf(),
            clusters@ == p,
            n == p.index.len(),
            m <= n,
            need@.len() == m,
            forall|x: int| 0 <= x < m ==> #[trigger] need@[x] == (p.members[p.index[x] as int].len() >= 2),
        decreases n - m,
    {
        let size = clusters.cluster_size(m);
        need.push(size >= 2);
        m = m + 1;
    }
    let mut k: usize = 0;
    while k < suspects.len()
        invariant
            n == p.index.len(),
            need@.len() == n,
            pairs_within(suspects@, n as nat),
            k <= suspects@.len(),
            forall|x: int|
                0 <= x < n ==> #[trigger] need@[x] == (p.members[p.index[x] as int].len() >= 2 || touches(
                    suspects@.take(k as int),
                    x as usize,
                )),
        decreases suspects@.len() - k,
    {
        let (a, b) = suspects[k];
        assert(pairs_within(suspects@, n as nat) ==> suspects@[k as int].0 < n);
        need.set(a, true);
        need.set(b, true);
        assert forall|x: int| 0 <= x < n implies #[trigger] need@[x] == (p.members[p.index[x] as int].len() >= 2
            || touches(suspects@.take(k + 1), x as usize)) by {
            let t0 = suspects@.take(k as int);
            let t1 = suspects@.take(k + 1);
            if touches(t0, x as usize) {
                let q = choose|q: int| 0 <= q < t0.len() && ((#[trigger] t0[q]).0 == x as usize || t0[q].1 == x as usize);
                assert(t1[q] == t0[q]);
            }
            if touches(t1, x as usize) && x != a as int && x != b as int {
                let q = choose|q: int| 0 <= q < t1.len() && ((#[trigger] t1[q]).0 == x as usize || t1[q].1 == x as usize);
                assert(t0[q] == t1[q]);
            }
            if x == a as int || x == b as int {
                assert(t1[k as int] == (a, b));
            }
        }
        k = k + 1;
    }
    assert(suspects@.take(suspects@.len() as int) =~= suspects@);
    need
}

/// The clustering after the suspect pairs are confirmed in turn: a pair the
/// embeddings call similar is a merge attempt under `rule`.
pub open spec fn confirmed_along<R: PairRule>(p: Partition, pairs: Seq<(usize, usize)>, v: &AiVerdicts, rule: &R) -> Partition
    decreases pairs.len(),
{
    if pairs.len() == 0 {
        p
    } else {
        let q = confirmed_along(p, pairs.drop_last(), v, rule);
        let (i, j) = pairs.last();
        if v.verdict(i, j).similar {
            q.try_merged(i, j, rule)
        } else {
            q
        }
    }
}

/// How many of those confirmations merge two clusters.
pub open spec fn confirmations<R: PairRule>(p: Partition, pairs: Seq<(usize, usize)>, v: &AiVerdicts, rule: &R) -> nat
    decreases pairs.len(),
{
    if pairs.len() == 0 {
        0
    } else {
        let q = confirmed_along(p, pairs.drop_last(), v, rule);
        let (i, j) = pairs.last();
        confirmations(p, pairs.drop_last(), v, rule) + if v.verdict(i, j).similar && q.can_merge(i, j, rule) {
            1nat
        } else {
            0nat
        }
    }
}

/// Confirming pairs whose hashes lie beyond the hash limit of the rule joins
/// nothing: the clustering stays as it was and no merge is counted.
pub proof fn lemma_far_confirmations_join_nothing(
    p: Partition,
    pairs: Seq<(usize, usize)>,
    v: &AiVerdicts,
    rule: &SuspectRule,
)
    requires
        p.wf(),
        p.index.len() == rule.hashes@.len(),
        pairs_within(pairs, p.index.len()),
        pairs_beyond(pairs, rule.hashes@, rule.max_distance as int),
    ensures
        confirmed_along(p, pairs, v, rule) == p,
        confirmations(p, pairs, v, rule) == 0,
    decreases pairs.len(),
{
    if pairs.len() > 0 {
        let t = pairs.drop_last();
        assert forall|k: int| 0 <= k < t.len() implies (#[trigger] t[k]).0 < p.index.len() && t[k].1 < p.index.len()
            && (rule.max_distance as int) < hamming(rule.hashes@[t[k].0 as int], rule.hashes@[t[k].1 as int]) by {
            assert(t[k] == pairs[k]);
        }
        lemma_far_confirmations_join_nothing(p, t, v, rule);
        let last = pairs[pairs.len() - 1];
        assert(pairs.last() == last);
        let i = last.0;
        let j = last.1;
        assert(i < p.index.len() && j < p.index.len());
        let ci = p.index[i as int];
        let cj = p.index[j as int];
        if ci != cj {
            let h = rule.hashes@;
            lemma_hamming_laws(h[i as int], h[j as int]);
            assert(p.members[p.index[i as int] as int].contains(i as int as usize));
            assert(p.members[p.index[j as int] as int].contains(j as int as usize));
            let xi = choose|x: int| 0 <= x < p.members[ci as int].len() && p.members[ci as int][x] == i;
            let xj = choose|x: int| 0 <= x < p.members[cj as int].len() && p.members[cj as int][x] == j;
            if p.can_merge(i, j, rule) {
                let (small, large) = p.merge_roles(i, j);
                if small == ci {
                    assert(rule.spec_holds(p.members[small as int][xi], p.members[large as int][xj]));
                } else {
                    assert(rule.spec_holds(p.members[small as int][xj], p.members[large as int][xi]));
                }
                assert(false);
            }
        }
    }
}

/// Confirms the suspect pairs in turn; returns how many merges happened.
pub fn confirm_suspects<R: PairRule>(
    clusters: &mut Clusters,
    suspects: &Vec<(usize, usize)>,
    verdicts: &AiVerdicts,
    rule: &R,
) -> (count: u64)
    requires
        old(clusters).wf(),
        pairs_within(suspects@, old(clusters)@.index.len()),
        old(clusters)@.index.len() <= rule.spec_size(),
        old(clusters)@.index.len() <= verdicts.size(),
    ensures
        final(clusters).wf(),
        final(clusters)@ == confirmed_along(old(clusters)@, suspects@, verdicts, rule),
        count == confirmations(old(clusters)@, suspects@, verdicts, rule),
        final(clusters)@.index.len() == old(clusters)@.index.len(),
{
    let ghost p = clusters@;
    let mut count: u64 = 0;
    let mut k: usize = 0;
    while k < suspects.len()
        invariant
            clusters.wf(),
            clusters@ == confirmed_along(p, suspects@.take(k as int), verdicts, rule),
            count == confirmations(p, suspects@.take(k as int), verdicts, rule),
            count <= k,
            k <= suspects@.len(),
            pairs_within(suspects@, p.index.len()),
            clusters@.index.len() == p.index.len(),
            p.index.len() <= rule.spec_size(),
            p.index.len() <= verdicts.size(),
        decreases suspects@.len() - k,
    {
        let (i, j) = suspects[k];
        assert(suspects@.take(k + 1).drop_last() =~= suspects@.take(k as int));
        assert(suspects@.take(k + 1).last() == (i, j));
        assert(pairs_within(suspects@, p.index.len()) ==> suspects@[k as int].0 < p.index.len());
        let ci = clusters.cluster_of(i);
        let cj = clusters.cluster_of(j);
        if ci != cj && verdicts.table[i][j].similar {
            let merged = clusters.try_merge(i, j, rule);
            if merged {
                count = count + 1;
            }
        }
        k = k + 1;
    }
    assert(suspects@.take(suspects@.len() as int) =~= suspects@);
    count
}

/// The pairs `(i, j)` with `i < j < upto` in different clusters that the
/// embeddings call similar, in that order.
pub open spec fn similar_row(p: Partition, v: &AiVerdicts, i: nat, upto: nat) -> Seq<(usize, usize)>
    decreases upto,
{
    if upto <= i + 1 {
        Seq::empty()
    } else {
        let prev = similar_row(p, v, i, (upto - 1) as nat);
        let j = (upto - 1) as usize;
        if p.index[i as int] != p.index[j as int] && v.verdict(i as usize, j).similar {
            prev.push((i as usize, j))
        } else {
            prev
        }
    }
}

pub open spec fn similar_pairs(p: Partition, v: &AiVerdicts, rows: nat, n: nat) -> Seq<(usize, usize)>
    decreases rows,
{
    if rows == 0 {
        Seq::empty()
    } else {
        similar_pairs(p, v, (rows - 1) as nat, n) + similar_row(p, v, (rows - 1) as nat, n)
    }
}

/// Compares picture `i` with every later picture in another cluster by the
/// embedding verdicts, appending the similar pairs to `out`.
pub fn similar_row_pairs(clusters: &Clusters, verdicts: &AiVerdicts, i: usize, out: &mut Vec<(usize, usize)>)
    requires
        clusters.wf(),
        clusters@.index.len() <= verdicts.size(),
        (i as int) < clusters@.index.len(),
    ensures
        final(out)@ == old(out)@ + similar_row(clusters@, verdicts, i as nat, clusters@.index.len()),
{
    let ghost p = clusters@;
    let n = clusters.len();
    let ci = clusters.cluster_of(i);
    let mut j: usize = i + 1;
    let ghost out0 = out@;
    assert(out0 + similar_row(p, verdicts, i as nat, j as nat) =~= out0);
    while j < n
        invariant
            clusters@ == p,
            n == p.index.len(),
            n <= verdicts.size(),
            i < j <= n,
            ci == p.index[i as int],
            out@ == out0 + similar_row(p, verdicts, i as nat, j as nat),
        decreases n - j,
    {
        let cj = clusters.cluster_of(j);
        if ci != cj && verdicts.table[i][j].similar {
            out.push((i, j));
        }
        assert(out0 + similar_row(p, verdicts, i as nat, j as nat).push((i, j)) =~= (out0 + similar_row(
            p,
            verdicts,
            i as nat,
            j as nat,
        )).push((i, j)));
        j = j + 1;
    }
}

/// A merge keeps the partition well formed and its size.
pub proof fn lemma_force_merged_wf(p: Partition, a: usize, b: usize)
    requires
        p.wf(),
        (a as int) < p.index.len(),
        (b as int) < p.index.len(),
    ensures
        p.force_merged(a, b).wf(),
        p.force_merged(a, b).index.len() == p.index.len(),
        p.force_merged(a, b).members.len() == p.members.len(),
{
    if p.index[a as int] != p.index[b as int] {
        crate::clusters::lemma_absorb_wf(p, p.index[a as int], p.index[b as int]);
    }
}

/// A merge attempt keeps the partition well formed and its size.
pub proof fn lemma_try_merged_wf<R: PairRule>(p: Partition, a: usize, b: usize, rule: &R)
    requires
        p.wf(),
        (a as int) < p.index.len(),
        (b as int) < p.index.len(),
    ensures
        p.try_merged(a, b, rule).wf(),
        p.try_merged(a, b, rule).index.len() == p.index.len(),
        p.try_merged(a, b, rule).members.len() == p.members.len(),
{
    if p.can_merge(a, b, rule) {
        let (small, large) = p.merge_roles(a, b);
        crate::clusters::lemma_absorb_wf(p, large, small);
    }
}

pub proof fn lemma_md5_merged_wf(p: Partition, keys: Seq<Option<Seq<char>>>, k: nat)
    requires
        p.wf(),
        k <= keys.len(),
        keys.len() == p.index.len(),
    ensures
        md5_merged_upto(p, keys, k).wf(),
        md5_merged_upto(p, keys, k).index.len() == p.index.len(),
        md5_merged_upto(p, keys, k).members.len() == p.members.len(),
    decreases k,
{
    if k > 0 {
        let km = (k - 1) as nat;
        lemma_md5_merged_wf(p, keys, km);
        let i = km as int;
        if keys[i] is Some {
            lemma_first_index(keys.take(i), keys[i]);
            match first_index(keys.take(i), keys[i]) {
                Some(j) => {
                    lemma_force_merged_wf(md5_merged_upto(p, keys, km), j as usize, i as usize);
                },
                None => {},
            }
        }
    }
}

pub proof fn lemma_merged_along_wf<R: PairRule>(p: Partition, pairs: Seq<(usize, usize)>, rule: &R)
    requires
        p.wf(),
        pairs_within(pairs, p.index.len()),
    ensures
        merged_along(p, pairs, rule).wf(),
        merged_along(p, pairs, rule).index.len() == p.index.len(),
        merged_along(p, pairs, rule).members.len() == p.members.len(),
    decreases pairs.len(),
{
    if pairs.len() > 0 {
        let t = pairs.drop_last();
        assert(pairs_within(t, p.index.len())) by {
            assert forall|k: int| 0 <= k < t.len() implies (#[trigger] t[k]).0 < p.index.len() && t[k].1 < p.index.len() by {
                assert(t[k] == pairs[k]);
            }
        }
        lemma_merged_along_wf(p, t, rule);
        assert(pairs[pairs.len() - 1] == pairs.last());
        lemma_try_merged_wf(merged_along(p, t, rule), pairs.last().0, pairs.last().1, rule);
    }
}

pub proof fn lemma_confirmed_wf<R: PairRule>(p: Partition, pairs: Seq<(usize, usize)>, v: &AiVerdicts, rule: &R)
    requires
        p.wf(),
        pairs_within(pairs, p.index.len()),
    ensures
        confirmed_along(p, pairs, v, rule).wf(),
        confirmed_along(p, pairs, v, rule).index.len() == p.index.len(),
        confirmed_along(p, pairs, v, rule).members.len() == p.members.len(),
    decreases pairs.len(),
{
    if pairs.len() > 0 {
        let t = pairs.drop_last();
        assert(pairs_within(t, p.index.len())) by {
            assert forall|k: int| 0 <= k < t.len() implies (#[trigger] t[k]).0 < p.index.len() && t[k].1 < p.index.len() by {
                assert(t[k] == pairs[k]);
            }
        }
        lemma_confirmed_wf(p, t, v, rule);
        assert(pairs[pairs.len() - 1] == pairs.last());
        lemma_try_merged_wf(confirmed_along(p, t, v, rule), pairs.last().0, pairs.last().1, rule);
    }
}

/// A pruning pass keeps the partition well formed and adds at most one
/// cluster per element.
pub proof fn lemma_pruned_wf<T: MemberTest>(p: Partition, test: &T)
    requires
        p.wf(),
        p.members.len() + p.index.len() < usize::MAX,
    ensures
        pruned(p, test).wf(),
        pruned(p, test).index.len() == p.index.len(),
        pruned(p, test).members.len() <= p.members.len() + p.index.len(),
{
    let gs = p.groups();
    crate::clusters::lemma_groups_partition(p);
    assert forall|q: int| 0 <= q < gs.len() implies (#[trigger] gs[q]).no_duplicates() by {
        assert((gs[q][0] as int) < p.index.len());
        assert(p.members[p.index[gs[q][0] as int] as int] == gs[q]);
    }
    let l = eviction_list(test, gs, gs.len());
    lemma_eviction_list(test, gs, gs.len(), p.index.len());
    assert forall|i: int| 0 <= i < l.len() implies (#[trigger] l[i] as int) < p.index.len() by {
        assert((l[i] as nat) < p.index.len());
    }
    lemma_distinct_below(l, p.index.len());
    lemma_evictions(p, l, l.len());
    assert(l.take(l.len() as int) =~= l);
}

/// A clustering whose clusters are cliques reports groups whose members all
/// pass the rule pairwise.
pub proof fn lemma_groups_of_cliques<R: PairRule>(p: Partition, rule: &R)
    requires
        p.wf(),
        p.cliques(rule),
    ensures
        forall|g: int, x: int, y: int|
            0 <= g < p.groups().len() && 0 <= x < p.groups()[g].len() && 0 <= y < p.groups()[g].len() && x != y
                ==> #[trigger] rule.spec_holds(p.groups()[g][x], p.groups()[g][y]),
{
    crate::clusters::lemma_groups_partition(p);
    assert forall|g: int, x: int, y: int|
        0 <= g < p.groups().len() && 0 <= x < p.groups()[g].len() && 0 <= y < p.groups()[g].len() && x != y implies #[trigger] rule.spec_holds(
        p.groups()[g][x],
        p.groups()[g][y],
    ) by {
        let c = p.index[p.groups()[g][0] as int];
        assert(p.members[c as int] == p.groups()[g]);
        assert(p.members[c as int][x] == p.groups()[g][x]);
        assert(p.members[c as int][y] == p.groups()[g][y]);
    }
}

pub proof fn lemma_at_distance_within(pairs: Seq<(usize, usize)>, h: Seq<i64>, d: nat, n: nat)
    requires
        pairs_within(pairs, n),
    ensures
        pairs_within(at_distance(pairs, h, d), n),
    decreases pairs.len(),
{
    if pairs.len() > 0 {
        let t = pairs.drop_last();
        assert(pairs_within(t, n)) by {
            assert forall|k: int| 0 <= k < t.len() implies (#[trigger] t[k]).0 < n && t[k].1 < n by {
                assert(t[k] == pairs[k]);
            }
        }
        lemma_at_distance_within(t, h, d, n);
        assert(pairs[pairs.len() - 1] == pairs.last());
    }
}

pub proof fn lemma_sorted_upto_within(pairs: Seq<(usize, usize)>, h: Seq<i64>, d: nat, n: nat)
    requires
        pairs_within(pairs, n),
    ensures
        pairs_within(by_distance_upto(pairs, h, d), n),
    decreases d,
{
    if d > 0 {
        lemma_sorted_upto_within(pairs, h, (d - 1) as nat, n);
        lemma_at_distance_within(pairs, h, (d - 1) as nat, n);
        let a = by_distance_upto(pairs, h, (d - 1) as nat);
        let b = at_distance(pairs, h, (d - 1) as nat);
        assert forall|k: int| 0 <= k < (a + b).len() implies (#[trigger] (a + b)[k]).0 < n && (a + b)[k].1 < n by {
            if k < a.len() {
                assert((a + b)[k] == a[k]);
            } else {
                assert((a + b)[k] == b[k - a.len()]);
            }
        }
    }
}

/// Sorting keeps every pair within range.
pub proof fn lemma_sorted_within(pairs: Seq<(usize, usize)>, h: Seq<i64>)
    requires
        pairs_within(pairs, h.len()),
    ensures
        pairs_within(sorted_by_distance(pairs, h), h.len()),
{
    lemma_sorted_upto_within(pairs, h, 65, h.len());
}

/// The clustering after MD5 joining, from singletons.
pub open spec fn md5_stage(n: nat, keys: Seq<Option<Seq<char>>>) -> Partition {
    md5_merged_upto(Partition::singletons(n), keys, n)
}

/// The hash comparison stage: the pairs within the threshold, nearest
/// first, each a complete-linkage merge attempt under the threshold.
pub open spec fn phash_merge_stage(hashes: &Vec<i64>, p: Partition, cfg: &DedupConfig) -> Partition {
    let close = band_pairs(p, hashes@, hashes@.len(), -1, cfg.phash_threshold as int);
    merged_along(p, sorted_by_distance(close, hashes@), &PhashRule { hashes, max_distance: cfg.phash_threshold })
}

/// The closing validation: pruning members that stray more than
/// `phash_threshold` bits from another member of their group, then
/// splitting oversized groups under half the threshold.
pub open spec fn phash_tidy(hashes: &Vec<i64>, p: Partition, cfg: &DedupConfig) -> Partition {
    split_oversized(
        pruned(p, &PhashSpread { hashes, max_distance: cfg.phash_threshold }),
        &PhashRule { hashes, max_distance: cfg.phash_threshold / 2 },
    )
}

/// The clustering of the hash-only search.
pub open spec fn phash_mode_result(hashes: &Vec<i64>, keys: Seq<Option<Seq<char>>>, cfg: &DedupConfig) -> Partition {
    phash_tidy(hashes, phash_merge_stage(hashes, md5_stage(hashes@.len(), keys), cfg), cfg)
}

/// The clustering of the combined search: hash merging, then (when
/// embeddings are available) embedding validation of the groups and
/// confirmation of the suspect pairs, then the closing validation.
pub open spec fn phash_ai_mode_result(
    hashes: &Vec<i64>,
    keys: Seq<Option<Seq<char>>>,
    cfg: &DedupConfig,
    ai: bool,
    v: &AiVerdicts,
) -> Partition {
    let p1 = md5_stage(hashes@.len(), keys);
    let p2 = phash_merge_stage(hashes, p1, cfg);
    let suspects = band_pairs(p1, hashes@, hashes@.len(), cfg.phash_threshold as int, cfg.phash_suspect_max as int);
    let p4 = if ai {
        confirmed_along(
            pruned(p2, &AiSpread { verdicts: v }),
            suspects,
            v,
            &SuspectRule { hashes, max_distance: cfg.phash_threshold, verdicts: v },
        )
    } else {
        p2
    };
    phash_tidy(hashes, p4, cfg)
}

/// The closing validation leaves every cluster tight: any two members are
/// at most `phash_threshold` bits apart.
pub proof fn lemma_tidy_tight(hashes: &Vec<i64>, p: Partition, cfg: &DedupConfig)
    requires
        p.wf(),
        p.index.len() == hashes@.len(),
        p.members.len() + p.index.len() < usize::MAX,
        phash_tidy(hashes, p, cfg).members.len() <= usize::MAX,
    ensures
        phash_tidy(hashes, p, cfg).wf(),
        phash_tidy(hashes, p, cfg).cliques(&PhashRule { hashes, max_distance: cfg.phash_threshold }),
{
    let spread = PhashSpread { hashes, max_distance: cfg.phash_threshold };
    let tight = PhashRule { hashes, max_distance: cfg.phash_threshold };
    let strict = PhashRule { hashes, max_distance: cfg.phash_threshold / 2 };
    lemma_pruned_wf(p, &spread);
    lemma_pruned_groups_are_tight(p, &spread, &tight);
    let p3 = pruned(p, &spread);
    lemma_split_oversized_keeps_cliques(p3, &strict, &tight, p3.groups().len());
}

/// Every group the hash-only search reports is tight: any two of its
/// pictures are at most `phash_threshold` bits apart.
pub proof fn lemma_phash_mode_groups_tight(hashes: &Vec<i64>, keys: Seq<Option<Seq<char>>>, cfg: &DedupConfig)
    requires
        keys.len() == hashes@.len(),
        hashes@.len() < usize::MAX / 4,
        phash_mode_result(hashes, keys, cfg).members.len() <= usize::MAX,
    ensures
        phash_mode_result(hashes, keys, cfg).wf(),
        forall|g: int, x: int, y: int|
            0 <= g < phash_mode_result(hashes, keys, cfg).groups().len() && 0 <= x < phash_mode_result(
                hashes,
                keys,
                cfg,
            ).groups()[g].len() && 0 <= y < phash_mode_result(hashes, keys, cfg).groups()[g].len() && x != y
                ==> #[trigger] hamming(
                hashes@[phash_mode_result(hashes, keys, cfg).groups()[g][x] as int],
                hashes@[phash_mode_result(hashes, keys, cfg).groups()[g][y] as int],
            ) <= cfg.phash_threshold,
{
    let n = hashes@.len();
    crate::clusters::lemma_singletons_wf(n);
    let p1 = md5_stage(n, keys);
    lemma_md5_merged_wf(Partition::singletons(n), keys, n);
    let close = band_pairs(p1, hashes@, n, -1, cfg.phash_threshold as int);
    lemma_band_pairs_within(p1, hashes@, n, -1, cfg.phash_threshold as int);
    lemma_sorted_within(close, hashes@);
    let p2 = phash_merge_stage(hashes, p1, cfg);
    lemma_merged_along_wf(p1, sorted_by_distance(close, hashes@), &PhashRule { hashes, max_distance: cfg.phash_threshold });
    lemma_tidy_tight(hashes, p2, cfg);
    let r = phash_mode_result(hashes, keys, cfg);
    let tight = PhashRule { hashes, max_distance: cfg.phash_threshold };
    lemma_groups_of_cliques(r, &tight);
    assert forall|g: int, x: int, y: int|
        0 <= g < r.groups().len() && 0 <= x < r.groups()[g].len() && 0 <= y < r.groups()[g].len() && x != y implies #[trigger] hamming(
        hashes@[r.groups()[g][x] as int],
        hashes@[r.groups()[g][y] as int],
    ) <= cfg.phash_threshold by {
        assert(tight.spec_holds(r.groups()[g][x], r.groups()[g][y]));
    }
}

/// Merging along pairs keeps clusters cliques under a symmetric rule.
pub proof fn lemma_merged_along_keeps_cliques<R: PairRule>(p: Partition, pairs: Seq<(usize, usize)>, rule: &R)
    requires
        p.wf(),
        pairs_within(pairs, p.index.len()),
        symmetric(rule),
        p.cliques(rule),
    ensures
        merged_along(p, pairs, rule).cliques(rule),
    decreases pairs.len(),
{
    if pairs.len() > 0 {
        let t = pairs.drop_last();
        assert(pairs_within(t, p.index.len())) by {
            assert forall|k: int| 0 <= k < t.len() implies (#[trigger] t[k]).0 < p.index.len() && t[k].1 < p.index.len() by {
                assert(t[k] == pairs[k]);
            }
        }
        lemma_merged_along_keeps_cliques(p, t, rule);
        lemma_merged_along_wf(p, t, rule);
        assert(pairs[pairs.len() - 1] == pairs.last());
        crate::clusters::lemma_try_merged_keeps_cliques(
            merged_along(p, t, rule),
            pairs.last().0,
            pairs.last().1,
            rule,
        );
    }
}

/// A pruning pass keeps clusters cliques: members only leave.
pub proof fn lemma_pruned_keeps_cliques<T: MemberTest, R: PairRule>(p: Partition, test: &T, rule: &R)
    requires
        p.wf(),
        p.members.len() + p.index.len() < usize::MAX,
        p.cliques(rule),
    ensures
        pruned(p, test).cliques(rule),
{
    let gs = p.groups();
    crate::clusters::lemma_groups_partition(p);
    assert forall|q: int| 0 <= q < gs.len() implies (#[trigger] gs[q]).no_duplicates() by {
        assert((gs[q][0] as int) < p.index.len());
        assert(p.members[p.index[gs[q][0] as int] as int] == gs[q]);
    }
    let l = eviction_list(test, gs, gs.len());
    lemma_eviction_list(test, gs, gs.len(), p.index.len());
    assert forall|i: int| 0 <= i < l.len() implies (#[trigger] l[i] as int) < p.index.len() by {
        assert((l[i] as nat) < p.index.len());
    }
    lemma_distinct_below(l, p.index.len());
    lemma_evictions(p, l, l.len());
    assert(l.take(l.len() as int) =~= l);
    let s = pruned(p, test);
    assert(s == evicted_all(p, l.take(l.len() as int)));
    assert forall|c: int, x: int, y: int|
        0 <= c < s.members.len() && 0 <= x < s.members[c].len() && 0 <= y < s.members[c].len() && x != y implies #[trigger] rule.spec_holds(
        s.members[c][x],
        s.members[c][y],
    ) by {
        let vx = s.members[c][x];
        let vy = s.members[c][y];
        assert(s.members[c].no_duplicates());
        assert(vx != vy);
        assert(c < p.members.len());
        assert(s.members[c].contains(vx));
        assert(s.members[c].contains(vy));
        assert(p.members[c].contains(vx));
        assert(p.members[c].contains(vy));
        let i = choose|i: int| 0 <= i < p.members[c].len() && p.members[c][i] == vx;
        let j = choose|j: int| 0 <= j < p.members[c].len() && p.members[c][j] == vy;
        assert(rule.spec_holds(p.members[c][i], p.members[c][j]));
    }
}

/// Every group the combined search reports is tight: any two of its
/// pictures are at most `phash_threshold` bits apart, whatever the
/// embeddings decided.
pub proof fn lemma_phash_ai_mode_groups_tight(
    hashes: &Vec<i64>,
    keys: Seq<Option<Seq<char>>>,
    cfg: &DedupConfig,
    ai: bool,
    v: &AiVerdicts,
)
    requires
        keys.len() == hashes@.len(),
        hashes@.len() < usize::MAX / 4,
        phash_ai_mode_result(hashes, keys, cfg, ai, v).members.len() <= usize::MAX,
    ensures
        phash_ai_mode_result(hashes, keys, cfg, ai, v).wf(),
        forall|g: int, x: int, y: int|
            0 <= g < phash_ai_mode_result(hashes, keys, cfg, ai, v).groups().len() && 0 <= x < phash_ai_mode_result(
                hashes,
                keys,
                cfg,
                ai,
                v,
            ).groups()[g].len() && 0 <= y < phash_ai_mode_result(hashes, keys, cfg, ai, v).groups()[g].len() && x
                != y ==> #[trigger] hamming(
                hashes@[phash_ai_mode_result(hashes, keys, cfg, ai, v).groups()[g][x] as int],
                hashes@[phash_ai_mode_result(hashes, keys, cfg, ai, v).groups()[g][y] as int],
            ) <= cfg.phash_threshold,
{
    let n = hashes@.len();
    crate::clusters::lemma_singletons_wf(n);
    let p1 = md5_stage(n, keys);
    lemma_md5_merged_wf(Partition::singletons(n), keys, n);
    let close = band_pairs(p1, hashes@, n, -1, cfg.phash_threshold as int);
    lemma_band_pairs_within(p1, hashes@, n, -1, cfg.phash_threshold as int);
    lemma_sorted_within(close, hashes@);
    let p2 = phash_merge_stage(hashes, p1, cfg);
    lemma_merged_along_wf(p1, sorted_by_distance(close, hashes@), &PhashRule { hashes, max_distance: cfg.phash_threshold });
    let suspects = band_pairs(p1, hashes@, n, cfg.phash_threshold as int, cfg.phash_suspect_max as int);
    lemma_band_pairs_within(p1, hashes@, n, cfg.phash_threshold as int, cfg.phash_suspect_max as int);
    let p4 = if ai {
        confirmed_along(
            pruned(p2, &AiSpread { verdicts: v }),
            suspects,
            v,
            &SuspectRule { hashes, max_distance: cfg.phash_threshold, verdicts: v },
        )
    } else {
        p2
    };
    if ai {
        lemma_pruned_wf(p2, &AiSpread { verdicts: v });
        lemma_confirmed_wf(
            pruned(p2, &AiSpread { verdicts: v }),
            suspects,
            v,
            &SuspectRule { hashes, max_distance: cfg.phash_threshold, verdicts: v },
        );
    }
    lemma_tidy_tight(hashes, p4, cfg);
    let r = phash_ai_mode_result(hashes, keys, cfg, ai, v);
    let tight = PhashRule { hashes, max_distance: cfg.phash_threshold };
    lemma_groups_of_cliques(r, &tight);
    assert forall|g: int, x: int, y: int|
        0 <= g < r.groups().len() && 0 <= x < r.groups()[g].len() && 0 <= y < r.groups()[g].len() && x != y implies #[trigger] hamming(
        hashes@[r.groups()[g][x] as int],
        hashes@[r.groups()[g][y] as int],
    ) <= cfg.phash_threshold by {
        assert(tight.spec_holds(r.groups()[g][x], r.groups()[g][y]));
    }
}

/// The key under which two paths name the same file: backslashes read as
/// slashes, then lower-cased.
pub open spec fn path_key_of(path: Seq<char>) -> Seq<char> {
    lowercase_of(replace_char(path, '\\', '/'))
}

/// The key under which two paths name the same file.
pub fn path_key(path: &str) -> (r: String)
    ensures
        r@ == path_key_of(path@),
{
    let slashed = replace_char_in(path, '\\', '/');
    to_lowercase(slashed.as_str())
}

/// The files of `files[0..k]` whose key has not occurred before, in order.
pub open spec fn kept_first(files: Seq<FileRecord>, keys: Seq<Seq<char>>, k: nat) -> Seq<FileRecord>
    decreases k,
{
    if k == 0 {
        Seq::empty()
    } else {
        let prev = kept_first(files, keys, (k - 1) as nat);
        if keys.take(k - 1).contains(keys[k - 1]) {
            prev
        } else {
            prev.push(files[k - 1])
        }
    }
}

pub open spec fn key_views(keys: Seq<String>) -> Seq<Seq<char>> {
    keys.map_values(|s: String| s@)
}

/// Keeps, of the files whose keys coincide, only the first (the candidate
/// list of a duplicate search lists each file once, by `path_key`).
pub fn keep_first_by_key(files: Vec<FileRecord>, keys: &Vec<String>) -> (r: Vec<FileRecord>)
    requires
        keys@.len() == files@.len(),
    ensures
        r@ == kept_first(files@, key_views(keys@), files@.len()),
{
    let ghost orig = files@;
    let ghost kv = key_views(keys@);
    let n = files.len();
    let mut files = files;
    let mut rev: Vec<FileRecord> = Vec::new();
    while files.len() > 0
        invariant
            files@.len() + rev@.len() == n,
            n == orig.len(),
            files@ == orig.take(files@.len() as int),
            forall|k: int| 0 <= k < rev@.len() ==> #[trigger] rev@[k] == orig[n - 1 - k],
        decreases files@.len(),
    {
        let x = files.pop().unwrap();
        rev.push(x);
        assert(files@ =~= orig.take(files@.len() as int));
    }
    let mut out: Vec<FileRecord> = Vec::new();
    let mut seen_keys = vstd::hash_set::StringHashSet::new();
    let mut i: usize = 0;
    while i < n
        invariant
            n == orig.len(),
            n == keys@.len(),
            kv == key_views(keys@),
            forall|k: Seq<char>| #[trigger] seen_keys@.contains(k) <==> kv.take(i as int).contains(k),
            i <= n,
            rev@.len() == n - i,
            forall|k: int| 0 <= k < rev@.len() ==> #[trigger] rev@[k] == orig[n - 1 - k],
            out@ == kept_first(orig, kv, i as nat),
        decreases n - i,
    {
        let f = rev.pop().unwrap();
        assert(f == orig[i as int]);
        assert(kv[i as int] == keys@[i as int]@);
        proof {
            crate::clusters::lemma_contains_last(kv.take(i + 1));
            assert(kv.take(i + 1).drop_last() =~= kv.take(i as int));
        }
        let seen = !seen_keys.insert(keys[i].clone());
        if !seen {
            out.push(f);
        }
        i = i + 1;
    }
    out
}

/// The hashes of the candidate pictures (each has one).
pub fn hashes_of(files: &Vec<FileRecord>) -> (r: Vec<i64>)
    requires
        forall|i: int| 0 <= i < files@.len() ==> (#[trigger] files@[i]).phash is Some,
    ensures
        r@.len() == files@.len(),
        forall|i: int| 0 <= i < files@.len() ==> #[trigger] r@[i] == files@[i].phash->0,
{
    let mut r: Vec<i64> = Vec::new();
    let mut i: usize = 0;
    while i < files.len()
        invariant
            i <= files@.len(),
            r@.len() == i,
            forall|k: int| 0 <= k < files@.len() ==> (#[trigger] files@[k]).phash is Some,
            forall|k: int| 0 <= k < i ==> #[trigger] r@[k] == files@[k].phash->0,
        decreases files@.len() - i,
    {
        match files[i].phash {
            Some(h) => r.push(h),
            None => r.push(0),
        }
        i = i + 1;
    }
    r
}

/// The MD5 texts of the candidate pictures.
pub fn md5s_of(files: &Vec<FileRecord>) -> (r: Vec<Option<String>>)
    ensures
        r@.len() == files@.len(),
        forall|i: int| 0 <= i < files@.len() ==> #[trigger] md5_key(r@[i]) == md5_key(files@[i].md5),
{
    let mut r: Vec<Option<String>> = Vec::new();
    let mut i: usize = 0;
    while i < files.len()
        invariant
            i <= files@.len(),
            r@.len() == i,
            forall|k: int| 0 <= k < i ==> #[trigger] md5_key(r@[k]) == md5_key(files@[k].md5),
        decreases files@.len() - i,
    {
        let m = match &files[i].md5 {
            Some(s) => Some(s.clone()),
            None => None,
        };
        r.push(m);
        i = i + 1;
    }
    r
}

/// Which comparisons a duplicate search runs.
#[derive(Clone, Copy, Debug, PartialEq, Eq, Structural)]
pub enum DedupMode {
    /// Hashes only.
    Phash,
    /// Image embeddings only, over all pairs.
    Ai,
    /// Hashes, confirmed and extended by image embeddings when available.
    PhashAi,
}

pub open spec fn spec_parse_dedup_mode(mode: Option<Seq<char>>) -> DedupMode {
    match mode {
        Some(m) => if m == seq!['p', 'h', 'a', 's', 'h'] {
            DedupMode::Phash
        } else if m == seq!['a', 'i'] {
            DedupMode::Ai
        } else {
            DedupMode::PhashAi
        },
        None => DedupMode::PhashAi,
    }
}

/// The mode named `"phash"` or `"ai"`; anything else, or no name, is the
/// combined mode.
pub fn parse_dedup_mode(mode: Option<&str>) -> (r: DedupMode)
    ensures
        r == spec_parse_dedup_mode(match mode {
            Some(m) => Some(m@),
            None => None,
        }),
{
    match mode {
        None => DedupMode::PhashAi,
        Some(m) => {
            let cs = chars_of(m);
            let phash = vec!['p', 'h', 'a', 's', 'h'];
            let ai = vec!['a', 'i'];
            assert(phash@ =~= seq!['p', 'h', 'a', 's', 'h']);
            assert(ai@ =~= seq!['a', 'i']);
            if chars_equal(cs.as_slice(), phash.as_slice()) {
                DedupMode::Phash
            } else if chars_equal(cs.as_slice(), ai.as_slice()) {
                DedupMode::Ai
            } else {
                DedupMode::PhashAi
            }
        },
    }
}

pub open spec fn phash_method_name() -> Seq<char> {
    seq!['p', 'H', 'a', 's', 'h']
}

pub open spec fn ai_method_name() -> Seq<char> {
    seq!['A', 'I', '(', 'M', 'o', 'b', 'i', 'l', 'e', 'N', 'e', 't', '-', 'v', '3', ')']
}

/// The methods a search reports: `pHash` and/or the embedding model.
pub open spec fn spec_dedup_methods(mode: DedupMode, ai_available: bool) -> Seq<Seq<char>> {
    match mode {
        DedupMode::Phash => seq![phash_method_name()],
        DedupMode::Ai => seq![ai_method_name()],
        DedupMode::PhashAi => if ai_available {
            seq![phash_method_name(), ai_method_name()]
        } else {
            seq![phash_method_name()]
        },
    }
}

fn method_name(ai: bool) -> (r: String)
    ensures
        r@ == (if ai { ai_method_name() } else { phash_method_name() }),
{
    let cs = if ai {
        vec!['A', 'I', '(', 'M', 'o', 'b', 'i', 'l', 'e', 'N', 'e', 't', '-', 'v', '3', ')']
    } else {
        vec!['p', 'H', 'a', 's', 'h']
    };
    assert(cs@ =~= (if ai { ai_method_name() } else { phash_method_name() }));
    string_from_chars(cs.as_slice())
}

/// The method names a search reports.
pub fn dedup_methods(mode: DedupMode, ai_available: bool) -> (r: Vec<String>)
    ensures
        r@.len() == spec_dedup_methods(mode, ai_available).len(),
        forall|i: int| 0 <= i < r@.len() ==> (#[trigger] r@[i])@ == spec_dedup_methods(mode, ai_available)[i],
{
    let mut r: Vec<String> = Vec::new();
    match mode {
        DedupMode::Phash => {
            r.push(method_name(false));
        },
        DedupMode::Ai => {
            r.push(method_name(true));
        },
        DedupMode::PhashAi => {
            r.push(method_name(false));
            if ai_available {
                r.push(method_name(true));
            }
        },
    }
    r
}

/// One timed stage of a duplicate search.
#[derive(Clone, Copy, Debug, PartialEq, Eq, Structural)]
pub enum SearchStep {
    /// Pictures with the same MD5 joined.
    Md5,
    /// Hash comparison and complete-linkage merging.
    PhashCompare,
    /// Feature vectors for the grouped pictures and the suspects.
    AiExtract,
    /// Groups validated by the embedding verdicts.
    AiValidate,
    /// Suspect pairs shown to the embeddings.
    AiConfirm,
    /// The combined search without a model: nothing runs.
    AiDisabled,
    /// Pruning and splitting by hash.
    Tidy,
    /// Feature vectors for every picture.
    AiExtractAll,
    /// Every pair compared by embeddings and merged.
    AiCompareAll,
    /// Oversized groups split by the strict verdicts.
    OversizedSplit,
}

/// Whether the combined search uses embeddings: only in that mode, and only
/// with a model loaded.
pub open spec fn spec_uses_embeddings(mode: DedupMode, ai_available: bool) -> bool {
    mode == DedupMode::PhashAi && ai_available
}

/// The stages a search runs, in order. An embeddings-only search without a
/// model is refused after its MD5 stage (see `check_mode_available`).
pub open spec fn spec_search_steps(mode: DedupMode, ai_available: bool) -> Seq<SearchStep> {
    match mode {
        DedupMode::Ai => seq![SearchStep::Md5, SearchStep::AiExtractAll, SearchStep::AiCompareAll, SearchStep::OversizedSplit],
        DedupMode::Phash => seq![SearchStep::Md5, SearchStep::PhashCompare, SearchStep::Tidy],
        DedupMode::PhashAi => if ai_available {
            seq![
                SearchStep::Md5,
                SearchStep::PhashCompare,
                SearchStep::AiExtract,
                SearchStep::AiValidate,
                SearchStep::AiConfirm,
                SearchStep::Tidy
            ]
        } else {
            seq![SearchStep::Md5, SearchStep::PhashCompare, SearchStep::AiDisabled, SearchStep::Tidy]
        },
    }
}

/// The name under which a stage is timed and reported.
pub open spec fn spec_step_label(step: SearchStep) -> Seq<char> {
    match step {
        SearchStep::Md5 => seq!['M', 'D', '5', ' ', '去', '重'],
        SearchStep::PhashCompare => seq!['p', 'H', 'a', 's', 'h', ' ', '比', '较'],
        SearchStep::AiExtract => seq!['A', 'I', ' ', '特', '征', '提', '取'],
        SearchStep::AiValidate => seq!['A', 'I', ' ', '验', '证', '分', '组'],
        SearchStep::AiConfirm => seq!['A', 'I', ' ', '确', '认', '疑', '似', '对'],
        SearchStep::AiDisabled => seq!['A', 'I', ' ', '(', '未', '启', '用', ')'],
        SearchStep::Tidy => seq!['组', '内', '校', '验'],
        SearchStep::AiExtractAll => seq!['A', 'I', ' ', '特', '征', '提', '取', '(', '全', '量', ')'],
        SearchStep::AiCompareAll => seq!['A', 'I', ' ', '全', '量', '比', '对'],
        SearchStep::OversizedSplit => seq!['超', '大', '组', '拆', '分'],
    }
}

/// Whether the combined search uses embeddings.
pub fn uses_embeddings(mode: DedupMode, ai_available: bool) -> (r: bool)
    ensures
        r == spec_uses_embeddings(mode, ai_available),
{
    match mode {
        DedupMode::PhashAi => ai_available,
        _ => false,
    }
}

/// The stages a search runs, in order.
pub fn search_steps(mode: DedupMode, ai_available: bool) -> (r: Vec<SearchStep>)
    ensures
        r@ == spec_search_steps(mode, ai_available),
        r@.contains(SearchStep::AiValidate) <==> spec_uses_embeddings(mode, ai_available),
{
    let r = match mode {
        DedupMode::Ai => vec![SearchStep::Md5, SearchStep::AiExtractAll, SearchStep::AiCompareAll, SearchStep::OversizedSplit],
        DedupMode::Phash => vec![SearchStep::Md5, SearchStep::PhashCompare, SearchStep::Tidy],
        DedupMode::PhashAi => if ai_available {
            vec![
                SearchStep::Md5,
                SearchStep::PhashCompare,
                SearchStep::AiExtract,
                SearchStep::AiValidate,
                SearchStep::AiConfirm,
                SearchStep::Tidy,
            ]
        } else {
            vec![SearchStep::Md5, SearchStep::PhashCompare, SearchStep::AiDisabled, SearchStep::Tidy]
        },
    };
    proof {
        assert(r@ =~= spec_search_steps(mode, ai_available));
        if spec_uses_embeddings(mode, ai_available) {
            assert(r@[3] == SearchStep::AiValidate);
        } else {
            assert forall|k: int| 0 <= k < r@.len() implies r@[k] != SearchStep::AiValidate by {}
        }
    }
    r
}

impl SearchStep {
    /// The name under which the stage is timed and reported.
    pub fn label(&self) -> (r: String)
        ensures
            r@ == spec_step_label(*self),
    {
        let cs = match self {
            SearchStep::Md5 => vec!['M', 'D', '5', ' ', '去', '重'],
            SearchStep::PhashCompare => vec!['p', 'H', 'a', 's', 'h', ' ', '比', '较'],
            SearchStep::AiExtract => vec!['A', 'I', ' ', '特', '征', '提', '取'],
            SearchStep::AiValidate => vec!['A', 'I', ' ', '验', '证', '分', '组'],
            SearchStep::AiConfirm => vec!['A', 'I', ' ', '确', '认', '疑', '似', '对'],
            SearchStep::AiDisabled => vec!['A', 'I', ' ', '(', '未', '启', '用', ')'],
            SearchStep::Tidy => vec!['组', '内', '校', '验'],
            SearchStep::AiExtractAll => vec!['A', 'I', ' ', '特', '征', '提', '取', '(', '全', '量', ')'],
            SearchStep::AiCompareAll => vec!['A', 'I', ' ', '全', '量', '比', '对'],
            SearchStep::OversizedSplit => vec!['超', '大', '组', '拆', '分'],
        };
        assert(cs@ =~= spec_step_label(*self));
        string_from_chars(cs.as_slice())
    }
}

/// The message with which an embeddings-only search is refused when no
/// model is loaded.
pub open spec fn ai_unavailable_message() -> Seq<char> {
    seq![
        'A', 'I', ' ', 'e', 'n', 'g', 'i', 'n', 'e', ' ', 'n', 'o', 't', ' ', 'a', 'v', 'a', 'i', 'l', 'a', 'b', 'l', 'e',
        '.', ' ', 'C', 'a', 'n', 'n', 'o', 't', ' ', 'u', 's', 'e', ' ', 'P', 'u', 'r', 'e', ' ', 'A', 'I', ' ', 'm',
        'o', 'd', 'e', '.'
    ]
}

/// An embeddings-only search needs the model; the other modes run without it.
pub fn check_mode_available(mode: DedupMode, ai_available: bool) -> (r: Result<(), String>)
    ensures
        r is Err <==> (mode == DedupMode::Ai && !ai_available),
        r matches Err(e) ==> e@ == ai_unavailable_message(),
{
    if mode == DedupMode::Ai && !ai_available {
        let cs = vec![
            'A', 'I', ' ', 'e', 'n', 'g', 'i', 'n', 'e', ' ', 'n', 'o', 't', ' ', 'a', 'v', 'a', 'i', 'l', 'a', 'b', 'l',
            'e', '.', ' ', 'C', 'a', 'n', 'n', 'o', 't', ' ', 'u', 's', 'e', ' ', 'P', 'u', 'r', 'e', ' ', 'A', 'I', ' ',
            'm', 'o', 'd', 'e', '.'
        ];
        assert(cs@ =~= ai_unavailable_message());
        Err(string_from_chars(cs.as_slice()))
    } else {
        Ok(())
    }
}

/// The total length of the first `k` groups.
pub open spec fn total_len(gs: Seq<Seq<usize>>, k: nat) -> nat
    decreases k,
{
    if k == 0 {
        0
    } else {
        total_len(gs, (k - 1) as nat) + gs[k - 1].len()
    }
}

/// The first `k` groups one after the other.
pub open spec fn flatten(gs: Seq<Seq<usize>>, k: nat) -> Seq<usize>
    decreases k,
{
    if k == 0 {
        Seq::empty()
    } else {
        flatten(gs, (k - 1) as nat) + gs[k - 1]
    }
}

proof fn lemma_flatten(gs: Seq<Seq<usize>>, k: nat, n: nat)
    requires
        k <= gs.len(),
        forall|q: int| 0 <= q < gs.len() ==> (#[trigger] gs[q]).no_duplicates(),
        forall|q: int, x: int| 0 <= q < gs.len() && 0 <= x < gs[q].len() ==> (#[trigger] gs[q][x] as nat) < n,
        forall|q1: int, q2: int, x: int, y: int|
            0 <= q1 < gs.len() && 0 <= q2 < gs.len() && q1 != q2 && 0 <= x < gs[q1].len() && 0 <= y < gs[q2].len()
                ==> #[trigger] gs[q1][x] != #[trigger] gs[q2][y],
    ensures
        flatten(gs, k).len() == total_len(gs, k),
        flatten(gs, k).no_duplicates(),
        forall|i: int| 0 <= i < flatten(gs, k).len() ==> (#[trigger] flatten(gs, k)[i] as nat) < n,
        forall|i: int, q: int, y: int|
            0 <= i < flatten(gs, k).len() && k <= q < gs.len() && 0 <= y < gs[q].len() ==> #[trigger] flatten(gs, k)[i]
                != #[trigger] gs[q][y],
    decreases k,
{
    if k > 0 {
        let km = (k - 1) as nat;
        lemma_flatten(gs, km, n);
        let a = flatten(gs, km);
        let b = gs[km as int];
        assert forall|i: int, j: int| 0 <= i < a.len() && 0 <= j < b.len() implies a[i] != b[j] by {
            assert(a[i] != gs[km as int][j]);
        }
        crate::clusters::lemma_concat_no_duplicates(a, b);
        assert forall|i: int| 0 <= i < (a + b).len() implies (#[trigger] (a + b)[i] as nat) < n by {
            if i >= a.len() {
                assert((a + b)[i] == gs[km as int][i - a.len()]);
            } else {
                assert((a + b)[i] == a[i]);
            }
        }
        assert forall|i: int, q: int, y: int|
            0 <= i < (a + b).len() && k <= q < gs.len() && 0 <= y < gs[q].len() implies #[trigger] (a + b)[i]
            != #[trigger] gs[q][y] by {
            if i >= a.len() {
                assert((a + b)[i] == gs[km as int][i - a.len()]);
            } else {
                assert((a + b)[i] == a[i]);
            }
        }
    }
}

/// The groups of a clustering hold at most as many pictures as there are.
pub proof fn lemma_groups_total(p: Partition)
    requires
        p.wf(),
    ensures
        total_len(p.groups(), p.groups().len()) <= p.index.len(),
{
    let gs = p.groups();
    crate::clusters::lemma_groups_partition(p);
    assert forall|q: int| 0 <= q < gs.len() implies (#[trigger] gs[q]).no_duplicates() by {
        assert((gs[q][0] as int) < p.index.len());
        assert(p.members[p.index[gs[q][0] as int] as int] == gs[q]);
    }
    lemma_flatten(gs, gs.len(), p.index.len());
    lemma_distinct_below(flatten(gs, gs.len()), p.index.len());
}

/// The final groups of a search, with how many there are and how many
/// pictures they hold.
pub fn final_groups(clusters: &Clusters) -> (r: (Vec<Vec<usize>>, u64, u64))
    requires
        clusters.wf(),
    ensures
        nested(r.0@) == clusters@.groups(),
        r.1 == clusters@.groups().len(),
        r.2 == total_len(clusters@.groups(), clusters@.groups().len()),
{
    let ghost p = clusters@;
    let groups = clusters.get_groups();
    assert(nested(groups@) =~= p.groups());
    proof {
        lemma_groups_total(p);
    }
    let mut total: u64 = 0;
    let mut k: usize = 0;
    while k < groups.len()
        invariant
            p.wf(),
            nested(groups@) == p.groups(),
            k <= groups@.len(),
            total == total_len(p.groups(), k as nat),
            total_len(p.groups(), p.groups().len()) <= p.index.len(),
            p.index.len() <= usize::MAX,
        decreases groups@.len() - k,
    {
        proof {
            lemma_total_len_monotone(p.groups(), (k + 1) as nat, p.groups().len());
        }
        assert(groups@[k as int]@ == p.groups()[k as int]);
        total = total + groups[k].len() as u64;
        k = k + 1;
    }
    let found = groups.len() as u64;
    (groups, found, total)
}

proof fn lemma_total_len_monotone(gs: Seq<Seq<usize>>, k1: nat, k2: nat)
    requires
        k1 <= k2,
    ensures
        total_len(gs, k1) <= total_len(gs, k2),
    decreases k2,
{
    if k1 < k2 {
        lemma_total_len_monotone(gs, k1, (k2 - 1) as nat);
    }
}


/// The clustering after exact-duplicate joining: every picture alone, then
/// each picture with an MD5 joined to the first earlier picture with the
/// same MD5.
pub fn md5_clusters(md5s: &Vec<Option<String>>) -> (r: Clusters)
    requires
        md5s@.len() < usize::MAX,
    ensures
        r.wf(),
        r@ == md5_stage(md5s@.len(), md5_keys(md5s@)),
        r@.index.len() == md5s@.len(),
        r@.members.len() == md5s@.len(),
        forall|x: int, y: int|
            #![trigger r@.index[x], r@.index[y]]
            0 <= x < md5s@.len() && 0 <= y < md5s@.len() && md5s@[x] is Some && md5_key(md5s@[x]) == md5_key(
                md5s@[y],
            ) ==> r@.index[x] == r@.index[y],
{
    let mut c = Clusters::new(md5s.len());
    merge_identical_md5(&mut c, md5s);
    proof {
        let keys = md5_keys(md5s@);
        assert forall|x: int, y: int|
            #![trigger c@.index[x], c@.index[y]]
            0 <= x < md5s@.len() && 0 <= y < md5s@.len() && md5s@[x] is Some && md5_key(md5s@[x]) == md5_key(
                md5s@[y],
            ) implies c@.index[x] == c@.index[y] by {
            assert(keys[x] == md5_key(md5s@[x]));
            assert(keys[y] == md5_key(md5s@[y]));
            lemma_md5_stage_joins_identical(md5s@.len(), keys, x, y);
        }
    }
    c
}

/// The hash comparison stage: gathers the pairs of pictures in different
/// clusters whose hashes lie within the threshold (and, when
/// `with_suspects`, those further apart but within the suspect limit), then
/// tries the close pairs, nearest first, as complete-linkage merges under
/// the threshold. Returns the suspect pairs.
pub fn phash_compare(clusters: &mut Clusters, hashes: &Vec<i64>, cfg: &DedupConfig, with_suspects: bool) -> (suspects:
    Vec<(usize, usize)>)
    requires
        old(clusters).wf(),
        hashes@.len() == old(clusters)@.index.len(),
    ensures
        final(clusters).wf(),
        final(clusters)@ == phash_merge_stage(hashes, old(clusters)@, cfg),
        suspects@ == (if with_suspects {
            band_pairs(old(clusters)@, hashes@, hashes@.len(), cfg.phash_threshold as int, cfg.phash_suspect_max as int)
        } else {
            Seq::empty()
        }),
        final(clusters)@.index.len() == old(clusters)@.index.len(),
        final(clusters)@.members.len() == old(clusters)@.members.len(),
{
    let (close, suspects) = scan_all(clusters, hashes, cfg, with_suspects);
    proof {
        lemma_band_pairs_within(clusters@, hashes@, hashes@.len(), -1, cfg.phash_threshold as int);
        lemma_sorted_within(close@, hashes@);
    }
    let ordered = sort_by_distance(&close, hashes);
    let rule = PhashRule { hashes, max_distance: cfg.phash_threshold };
    let _ = merge_along(clusters, &ordered, &rule);
    suspects
}

/// Sends away every member of a group that lies more than
/// `phash_threshold` bits from another member of its group.
pub fn run_phash_postvalidation(clusters: &mut Clusters, hashes: &Vec<i64>, cfg: &DedupConfig)
    requires
        old(clusters).wf(),
        old(clusters)@.index.len() == hashes@.len(),
    ensures
        final(clusters).wf(),
        final(clusters)@ == pruned(old(clusters)@, &PhashSpread { hashes, max_distance: cfg.phash_threshold }),
        final(clusters)@.index.len() == old(clusters)@.index.len(),
{
    prune(clusters, &PhashSpread { hashes, max_distance: cfg.phash_threshold });
}

/// Splits every group of more than `MAX_GROUP_SIZE` pictures greedily into
/// subgroups whose members are pairwise within half the threshold.
pub fn run_phash_oversized_split(clusters: &mut Clusters, hashes: &Vec<i64>, cfg: &DedupConfig)
    requires
        old(clusters).wf(),
        old(clusters)@.index.len() == hashes@.len(),
    ensures
        final(clusters).wf(),
        final(clusters)@ == split_oversized(old(clusters)@, &PhashRule { hashes, max_distance: cfg.phash_threshold / 2 }),
        final(clusters)@.index.len() == old(clusters)@.index.len(),
        forall|c: int|
            0 <= c < old(clusters)@.members.len() && old(clusters)@.members[c].len() <= MAX_GROUP_SIZE
                ==> #[trigger] final(clusters)@.members[c] == old(clusters)@.members[c],
{
    let ghost p = clusters@;
    let rule = PhashRule { hashes, max_distance: cfg.phash_threshold / 2 };
    split_oversized_groups(clusters, &rule);
    proof {
        clusters.lemma_members_bound();
        lemma_split_oversized_keeps_small(p, &rule, p.groups().len());
    }
}

/// The hash-only search over pictures with hashes `hashes` and MD5 texts
/// `md5s`. Every group it leaves has any two members at most
/// `phash_threshold` bits apart.
pub fn phash_mode(hashes: &Vec<i64>, md5s: &Vec<Option<String>>, cfg: &DedupConfig) -> (r: Clusters)
    requires
        md5s@.len() == hashes@.len(),
        hashes@.len() < usize::MAX / 4,
    ensures
        r.wf(),
        r@ == phash_mode_result(hashes, md5_keys(md5s@), cfg),
        forall|g: int, x: int, y: int|
            0 <= g < r@.groups().len() && 0 <= x < r@.groups()[g].len() && 0 <= y < r@.groups()[g].len() && x != y
                ==> #[trigger] hamming(hashes@[r@.groups()[g][x] as int], hashes@[r@.groups()[g][y] as int])
                <= cfg.phash_threshold,
{
    let mut c = md5_clusters(md5s);
    let _ = phash_compare(&mut c, hashes, cfg, false);
    run_phash_postvalidation(&mut c, hashes, cfg);
    run_phash_oversized_split(&mut c, hashes, cfg);
    proof {
        c.lemma_members_bound();
        let keys = md5_keys(md5s@);
        lemma_phash_mode_groups_tight(hashes, keys, cfg);
    }
    c
}

/// A search by hashes, run stage by stage so that each stage can be timed:
/// exact duplicates by MD5 (`start`), hash comparison (`compare`), and, when
/// embeddings are in use, validation of the groups (`validate_groups`) and
/// confirmation of the suspect pairs (`confirm_suspects`); `finish` prunes
/// and splits by hash and hands out the clustering.
pub struct PhashAiSearch {
    hashes: Vec<i64>,
    cfg: DedupConfig,
    ai: bool,
    stage: u8,
    clusters: Clusters,
    suspects: Vec<(usize, usize)>,
    verdicts: Option<AiVerdicts>,
    keys: Ghost<Seq<Option<Seq<char>>>>,
}

impl PhashAiSearch {
    pub closed spec fn hashes(&self) -> Seq<i64> {
        self.hashes@
    }

    /// The hashes, as the vector the rules read.
    pub closed spec fn hash_vec(&self) -> &Vec<i64> {
        &self.hashes
    }

    pub closed spec fn cfg(&self) -> DedupConfig {
        self.cfg
    }

    /// The MD5 texts, as keys, that the search started from.
    pub closed spec fn keys(&self) -> Seq<Option<Seq<char>>> {
        self.keys@
    }

    /// Whether embeddings are in use.
    pub closed spec fn ai(&self) -> bool {
        self.ai
    }

    /// How many stages have run after the MD5 stage: 0 after `start`, 1
    /// after `compare`, 2 after `validate_groups`, 3 after
    /// `confirm_suspects`.
    pub closed spec fn stage(&self) -> u8 {
        self.stage
    }

    /// The current clustering.
    pub closed spec fn current(&self) -> Partition {
        self.clusters@
    }

    pub closed spec fn suspect_pairs(&self) -> Seq<(usize, usize)> {
        self.suspects@
    }

    /// The embedding verdicts handed to `validate_groups` (any value before).
    pub closed spec fn used_verdicts(&self) -> AiVerdicts {
        match self.verdicts {
            Some(v) => v,
            None => arbitrary(),
        }
    }

    pub closed spec fn wf(&self) -> bool {
        let n = self.hashes@.len();
        let p1 = md5_stage(n, self.keys@);
        let p2 = phash_merge_stage(&self.hashes, p1, &self.cfg);
        let sus = if self.ai {
            band_pairs(p1, self.hashes@, n, self.cfg.phash_threshold as int, self.cfg.phash_suspect_max as int)
        } else {
            Seq::empty()
        };
        let v = self.used_verdicts();
        let p3 = pruned(p2, &AiSpread { verdicts: &v });
        &&& self.keys@.len() == n
        &&& n < usize::MAX / 4
        &&& self.clusters.wf()
        &&& self.clusters@.index.len() == n
        &&& self.stage <= 3
        &&& self.stage == 0 ==> self.clusters@ == p1 && self.suspects@.len() == 0
        &&& self.stage >= 1 ==> self.suspects@ == sus
        &&& self.stage == 1 ==> self.clusters@ == p2
        &&& self.stage >= 2 ==> self.ai && self.verdicts is Some && v.size() == n
        &&& self.stage == 2 ==> self.clusters@ == p3
        &&& self.stage == 3 ==> self.clusters@ == confirmed_along(
            p3,
            sus,
            &v,
            &SuspectRule { hashes: &self.hashes, max_distance: self.cfg.phash_threshold, verdicts: &v },
        )
    }

    /// The first stage: every picture alone, then pictures with the same MD5
    /// joined.
    pub fn start(hashes: Vec<i64>, md5s: &Vec<Option<String>>, cfg: &DedupConfig, ai_available: bool) -> (r:
        PhashAiSearch)
        requires
            md5s@.len() == hashes@.len(),
            hashes@.len() < usize::MAX / 4,
        ensures
            r.wf(),
            r.stage() == 0,
            r.hashes() == hashes@,
            r.hash_vec()@ == hashes@,
            r.keys() == md5_keys(md5s@),
            r.cfg() == *cfg,
            r.ai() == ai_available,
            r.current() == md5_stage(hashes@.len(), md5_keys(md5s@)),
    {
        let c = md5_clusters(md5s);
        let own = DedupConfig {
            phash_threshold: cfg.phash_threshold,
            phash_suspect_max: cfg.phash_suspect_max,
        };
        PhashAiSearch {
            hashes,
            cfg: own,
            ai: ai_available,
            stage: 0,
            clusters: c,
            suspects: Vec::new(),
            verdicts: None,
            keys: Ghost(md5_keys(md5s@)),
        }
    }

    /// The stage that has run last (see `stage`).
    pub fn current_stage(&self) -> (r: u8)
        ensures
            r == self.stage(),
    {
        self.stage
    }

    /// Whether embeddings are in use.
    pub fn uses_ai(&self) -> (r: bool)
        ensures
            r == self.ai(),
    {
        self.ai
    }

    /// The number of pictures searched.
    pub fn size(&self) -> (r: usize)
        ensures
            r == self.hashes().len(),
    {
        self.hashes.len()
    }

    /// The number of suspect pairs to check with embeddings.
    pub fn suspect_count(&self) -> (r: u64)
        ensures
            r == self.suspect_pairs().len(),
    {
        self.suspects.len() as u64
    }

    /// The hash comparison: pairs in different clusters within the threshold
    /// are tried, nearest first, as complete-linkage merges; with embeddings
    /// in use, the pairs further apart but within the suspect limit are kept
    /// as suspects.
    pub fn compare(&mut self)
        requires
            old(self).wf(),
            old(self).stage() == 0,
        ensures
            final(self).wf(),
            final(self).stage() == 1,
            final(self).hashes() == old(self).hashes(),
            final(self).hash_vec() == old(self).hash_vec(),
            final(self).keys() == old(self).keys(),
            final(self).cfg() == old(self).cfg(),
            final(self).ai() == old(self).ai(),
            final(self).current() == phash_merge_stage(old(self).hash_vec(), old(self).current(), &old(self).cfg()),
            final(self).suspect_pairs() == (if old(self).ai() {
                band_pairs(
                    old(self).current(),
                    old(self).hashes(),
                    old(self).hashes().len(),
                    old(self).cfg().phash_threshold as int,
                    old(self).cfg().phash_suspect_max as int,
                )
            } else {
                Seq::empty()
            }),
    {
        let suspects = phash_compare(&mut self.clusters, &self.hashes, &self.cfg, self.ai);
        self.suspects = suspects;
        self.stage = 1;
    }

    /// Which pictures need a feature vector: those in a group of two or more
    /// after hash comparison, and those named by a suspect pair.
    pub fn vector_demand(&self) -> (need: Vec<bool>)
        requires
            self.wf(),
            self.stage() == 1,
        ensures
            need@.len() == self.hashes().len(),
            forall|m: int|
                0 <= m < need@.len() ==> #[trigger] need@[m] == (self.current().members[self.current().index[m] as int].len()
                    >= 2 || touches(self.suspect_pairs(), m as usize)),
    {
        proof {
            let n = self.hashes@.len();
            let joined = md5_stage(n, self.keys@);
            crate::clusters::lemma_singletons_wf(n);
            lemma_md5_merged_wf(Partition::singletons(n), self.keys@, n);
            lemma_band_pairs_within(joined, self.hashes@, n, self.cfg.phash_threshold as int, self.cfg.phash_suspect_max as int);
        }
        vector_demand(&self.clusters, &self.suspects)
    }

    /// Validation of the groups by the embedding verdicts: a member without a
    /// feature vector, or one the embeddings find distant from another
    /// member, leaves its group. The verdicts are kept for the next stage.
    pub fn validate_groups(&mut self, verdicts: AiVerdicts)
        requires
            old(self).wf(),
            old(self).stage() == 1,
            old(self).ai(),
            verdicts.size() == old(self).hashes().len(),
        ensures
            final(self).wf(),
            final(self).stage() == 2,
            final(self).hashes() == old(self).hashes(),
            final(self).hash_vec() == old(self).hash_vec(),
            final(self).keys() == old(self).keys(),
            final(self).cfg() == old(self).cfg(),
            final(self).ai() == old(self).ai(),
            final(self).suspect_pairs() == old(self).suspect_pairs(),
            final(self).used_verdicts() == verdicts,
            final(self).current() == pruned(old(self).current(), &AiSpread { verdicts: &verdicts }),
    {
        self.verdicts = Some(verdicts);
        match &self.verdicts {
            Some(v) => {
                prune(&mut self.clusters, &AiSpread { verdicts: v });
            },
            None => {},
        }
        self.stage = 2;
    }

    /// Confirmation of the suspect pairs in turn: a pair the embeddings call
    /// similar is a complete-linkage merge attempt under the threshold and the
    /// embeddings together. Returns how many merges happened. Every suspect
    /// pair lies beyond the threshold, so none of them joins two groups: the
    /// clustering stays as it was and the count is 0.
    pub fn confirm_suspects(&mut self) -> (count: u64)
        requires
            old(self).wf(),
            old(self).stage() == 2,
        ensures
            final(self).wf(),
            final(self).stage() == 3,
            final(self).hashes() == old(self).hashes(),
            final(self).hash_vec() == old(self).hash_vec(),
            final(self).keys() == old(self).keys(),
            final(self).cfg() == old(self).cfg(),
            final(self).ai() == old(self).ai(),
            final(self).suspect_pairs() == old(self).suspect_pairs(),
            final(self).used_verdicts() == old(self).used_verdicts(),
            ({
                let v = old(self).used_verdicts();
                let rule = SuspectRule {
                    hashes: old(self).hash_vec(),
                    max_distance: old(self).cfg().phash_threshold,
                    verdicts: &v,
                };
                &&& final(self).current() == confirmed_along(old(self).current(), old(self).suspect_pairs(), &v, &rule)
                &&& count == confirmations(old(self).current(), old(self).suspect_pairs(), &v, &rule)
            }),
            final(self).current() == old(self).current(),
            count == 0,
    {
        let ghost n = self.hashes@.len();
        let ghost joined = md5_stage(n, self.keys@);
        proof {
            crate::clusters::lemma_singletons_wf(n);
            lemma_md5_merged_wf(Partition::singletons(n), self.keys@, n);
            lemma_band_pairs_within(joined, self.hashes@, n, self.cfg.phash_threshold as int, self.cfg.phash_suspect_max as int);
        }
        let mut count: u64 = 0;
        match &self.verdicts {
            Some(v) => {
                let rule = SuspectRule { hashes: &self.hashes, max_distance: self.cfg.phash_threshold, verdicts: v };
                proof {
                    lemma_far_confirmations_join_nothing(self.clusters@, self.suspects@, v, &rule);
                }
                count = confirm_suspects(&mut self.clusters, &self.suspects, v, &rule);
            },
            None => {},
        }
        self.stage = 3;
        count
    }

    /// The last stage: every member more than `phash_threshold` bits from
    /// another member of its group leaves it, then oversized groups are split
    /// by hash. Every group left, in every mode, has any two members at most
    /// `phash_threshold` bits apart. Without embeddings this is the hash-only
    /// search.
    pub fn finish(self) -> (r: Clusters)
        requires
            self.wf(),
            self.stage() == 1 || self.stage() == 3,
        ensures
            r.wf(),
            r@.index.len() == self.hashes().len(),
            r@ == phash_tidy(self.hash_vec(), self.current(), &self.cfg()),
            r@ == phash_ai_mode_result(self.hash_vec(), self.keys(), &self.cfg(), self.stage() == 3, &self.used_verdicts()),
            !self.ai() ==> r@ == phash_mode_result(self.hash_vec(), self.keys(), &self.cfg()),
            forall|g: int, x: int, y: int|
                0 <= g < r@.groups().len() && 0 <= x < r@.groups()[g].len() && 0 <= y < r@.groups()[g].len() && x != y
                    ==> #[trigger] hamming(self.hashes()[r@.groups()[g][x] as int], self.hashes()[r@.groups()[g][y] as int])
                    <= self.cfg().phash_threshold,
    {
        let ghost v = self.used_verdicts();
        let ghost stage3 = self.stage == 3;
        let ghost keys = self.keys@;
        let PhashAiSearch { hashes, cfg, ai: _, stage: _, clusters, suspects: _, verdicts: _, keys: _ } = self;
        let mut c = clusters;
        run_phash_postvalidation(&mut c, &hashes, &cfg);
        run_phash_oversized_split(&mut c, &hashes, &cfg);
        proof {
            c.lemma_members_bound();
            lemma_phash_ai_mode_groups_tight(&hashes, keys, &cfg, stage3, &v);

        }
        c
    }
}

/// The embeddings-only comparison: every pair `(i, j)`, `i < j`, of
/// pictures in different clusters that the embeddings call similar, row by
/// row.
pub fn ai_candidate_pairs(clusters: &Clusters, verdicts: &AiVerdicts) -> (r: Vec<(usize, usize)>)
    requires
        clusters.wf(),
        clusters@.index.len() <= verdicts.size(),
    ensures
        r@ == similar_pairs(clusters@, verdicts, clusters@.index.len(), clusters@.index.len()),
{
    let n = clusters.len();
    let mut out: Vec<(usize, usize)> = Vec::new();
    let mut i: usize = 0;
    while i < n
        invariant
            clusters.wf(),
            n == clusters@.index.len(),
            n <= verdicts.size(),
            i <= n,
            out@ == similar_pairs(clusters@, verdicts, i as nat, n as nat),
        decreases n - i,
    {
        similar_row_pairs(clusters, verdicts, i, &mut out);
        i = i + 1;
    }
    out
}

/// The rest of the embeddings-only search: the candidate pairs, in the
/// order given (most similar first), as complete-linkage merges under the
/// embedding verdicts; then every group of more than `MAX_GROUP_SIZE`
/// pictures split greedily under the strict verdicts. Returns how many
/// merges happened.
pub fn ai_merge_and_split(clusters: &mut Clusters, ordered: &Vec<(usize, usize)>, verdicts: &AiVerdicts) -> (count: u64)
    requires
        old(clusters).wf(),
        pairs_within(ordered@, old(clusters)@.index.len()),
        old(clusters)@.index.len() <= verdicts.size(),
    ensures
        final(clusters).wf(),
        final(clusters)@ == split_oversized(
            merged_along(old(clusters)@, ordered@, &AiRule { verdicts }),
            &AiStrictRule { verdicts },
        ),
        count == merges_along(old(clusters)@, ordered@, &AiRule { verdicts }),
        final(clusters)@.index.len() == old(clusters)@.index.len(),
{
    let count = merge_along(clusters, ordered, &AiRule { verdicts });
    split_oversized_groups(clusters, &AiStrictRule { verdicts });
    count
}

/// Whether one of the first `k` groups of `gs`, one of two or more members,
/// holds `x` and `test` sends `x` away from it.
pub open spec fn sent_away<T: MemberTest>(test: &T, gs: Seq<Seq<usize>>, k: nat, x: usize) -> bool {
    exists|q: int| 0 <= q < k && gs[q].len() >= 2 && #[trigger] gs[q].contains(x) && test.spec_evicts(gs[q], x)
}

/// Every member `eviction_list` names lies in one of the first `k` groups,
/// one of two or more members, and `test` sends it away from that group.
pub proof fn lemma_eviction_list_evicts<T: MemberTest>(test: &T, gs: Seq<Seq<usize>>, k: nat)
    requires
        k <= gs.len(),
    ensures
        forall|i: int|
            0 <= i < eviction_list(test, gs, k).len() ==> sent_away(test, gs, k, #[trigger] eviction_list(test, gs, k)[i]),
    decreases k,
{
    if k > 0 {
        let km = (k - 1) as nat;
        lemma_eviction_list_evicts(test, gs, km);
        let a = eviction_list(test, gs, km);
        let g = gs[km as int];
        let b = if g.len() < 2 {
            Seq::<usize>::empty()
        } else {
            marked(test, g, g.len())
        };
        let l = eviction_list(test, gs, k);
        assert(l == a + b);
        lemma_marked_members(test, g, g.len());
        assert(g.take(g.len() as int) =~= g);
        assert forall|i: int| 0 <= i < l.len() implies sent_away(test, gs, k, #[trigger] l[i]) by {
            if i < a.len() {
                assert(l[i] == a[i]);
                assert(sent_away(test, gs, km, a[i]));
                let q = choose|q: int| 0 <= q < km && gs[q].len() >= 2 && #[trigger] gs[q].contains(a[i]) && test.spec_evicts(gs[q], a[i]);
                assert(gs[q].contains(l[i]));
            } else {
                let j = i - a.len();
                assert(l[i] == b[j]);
                assert(g.len() >= 2);
                assert(g.take(g.len() as int).contains(b[j]));
                assert(test.spec_evicts(g, b[j]));
                assert(gs[km as int].contains(l[i]));
            }
        }
    }
}

/// Evicting the first `k` members of a repeat-free list leaves every other
/// member of an old cluster in that cluster.
pub proof fn lemma_evicted_all_keeps_others(p: Partition, l: Seq<usize>, k: nat)
    requires
        p.wf(),
        k <= l.len(),
        forall|i: int| 0 <= i < l.len() ==> (#[trigger] l[i] as int) < p.index.len(),
        l.no_duplicates(),
        p.members.len() + l.len() < usize::MAX,
    ensures
        forall|c: int, x: usize|
            0 <= c < p.members.len() && #[trigger] p.members[c].contains(x) && !l.take(k as int).contains(x)
                ==> evicted_all(p, l.take(k as int)).members[c].contains(x),
    decreases k,
{
    if k == 0 {
        assert(l.take(0) =~= Seq::<usize>::empty());
    } else {
        let km = (k - 1) as nat;
        lemma_evicted_all_keeps_others(p, l, km);
        lemma_evictions(p, l, km);
        let t0 = l.take(km as int);
        let t1 = l.take(k as int);
        assert(t1.drop_last() =~= t0);
        let m = l[km as int];
        assert(t1.last() == m);
        crate::clusters::lemma_contains_last(t1);
        let s = evicted_all(p, t0);
        assert(evicted_all(p, t1) == s.evicted(m));
        let cm = s.index[m as int];
        assert forall|c: int, x: usize|
            0 <= c < p.members.len() && #[trigger] p.members[c].contains(x) && !t1.contains(x) implies evicted_all(
            p,
            t1,
        ).members[c].contains(x) by {
            assert(!t0.contains(x));
            assert(s.members[c].contains(x));
            assert(x != m);
            if s.members[cm as int].len() > 1 {
                crate::clusters::lemma_drop_value(s.members[cm as int], m);
                if c == cm as int {
                    assert(evicted_all(p, t1).members[c] == crate::clusters::drop_value(s.members[cm as int], m));
                } else {
                    assert(evicted_all(p, t1).members[c] == s.members[c]);
                }
            }
        }
    }
}

/// Validation of the groups by embeddings (the pruning of
/// `PhashAiSearch::validate_groups`): in every cluster of two or more
/// members that is left, every member has a feature vector and no member is
/// embedding-distant from another; and a member of a group that has a
/// feature vector and is distant from no other member of that group stays
/// in it.
pub proof fn lemma_validation_by_embeddings(p: Partition, v: &AiVerdicts)
    requires
        p.wf(),
        p.members.len() + p.index.len() < usize::MAX,
    ensures
        forall|c: int, x: int|
            0 <= c < pruned(p, &AiSpread { verdicts: v }).members.len() && pruned(p, &AiSpread { verdicts: v }).members[c].len()
                >= 2 && 0 <= x < pruned(p, &AiSpread { verdicts: v }).members[c].len() ==> v.has_vector@[(#[trigger] pruned(
                p,
                &AiSpread { verdicts: v },
            ).members[c][x]) as int],
        forall|c: int, x: int, y: int|
            0 <= c < pruned(p, &AiSpread { verdicts: v }).members.len() && 0 <= x < pruned(
                p,
                &AiSpread { verdicts: v },
            ).members[c].len() && 0 <= y < pruned(p, &AiSpread { verdicts: v }).members[c].len() && x != y
                ==> !#[trigger] v.verdict(
                pruned(p, &AiSpread { verdicts: v }).members[c][x],
                pruned(p, &AiSpread { verdicts: v }).members[c][y],
            ).distant,
        forall|c: int, m: usize|
            #![trigger pruned(p, &AiSpread { verdicts: v }).members[c].contains(m)]
            0 <= c < p.members.len() && p.members[c].len() >= 2 && p.members[c].contains(m) && v.has_vector@[m as int]
                && (forall|k: int|
                0 <= k < p.members[c].len() && p.members[c][k] != m ==> !#[trigger] v.verdict(m, p.members[c][k]).distant)
                ==> pruned(p, &AiSpread { verdicts: v }).members[c].contains(m),
{
    let test = AiSpread { verdicts: v };
    let gs = p.groups();
    crate::clusters::lemma_groups_partition(p);
    assert forall|q: int| 0 <= q < gs.len() implies (#[trigger] gs[q]).no_duplicates() by {
        assert((gs[q][0] as int) < p.index.len());
        assert(p.members[p.index[gs[q][0] as int] as int] == gs[q]);
    }
    let l = eviction_list(&test, gs, gs.len());
    lemma_eviction_list(&test, gs, gs.len(), p.index.len());
    lemma_eviction_list_evicts(&test, gs, gs.len());
    assert forall|i: int| 0 <= i < l.len() implies (#[trigger] l[i] as int) < p.index.len() by {
        assert((l[i] as nat) < p.index.len());
    }
    lemma_distinct_below(l, p.index.len());
    lemma_evictions(p, l, l.len());
    lemma_evicted_all_keeps_others(p, l, l.len());
    assert(l.take(l.len() as int) =~= l);
    let s = pruned(p, &test);
    assert(s == evicted_all(p, l.take(l.len() as int)));
    assert forall|c: int, x: int|
        0 <= c < s.members.len() && s.members[c].len() >= 2 && 0 <= x < s.members[c].len() implies c < p.members.len()
        && !test.spec_evicts(p.members[c], #[trigger] s.members[c][x]) by {
        let vx = s.members[c][x];
        assert(s.members[c].contains(vx));
        assert(c < p.members.len());
        assert(p.members[c].contains(vx));
        assert(!l.contains(vx));
        let i = choose|i: int| 0 <= i < p.members[c].len() && p.members[c][i] == vx;
        assert(p.index[vx as int] == c);
        let y: int = if x == 0 { 1 } else { 0 };
        let vy = s.members[c][y];
        assert(s.members[c].no_duplicates());
        assert(vx != vy);
        assert(s.members[c].contains(vy));
        assert(p.members[c].contains(vy));
        assert(p.members[c].len() >= 2) by {
            if p.members[c].len() < 2 {
                let j = choose|j: int| 0 <= j < p.members[c].len() && p.members[c][j] == vy;
            }
        }
        assert(p.members[p.index[vx as int] as int].len() >= 2);
        let g = choose|g: int| 0 <= g < gs.len() && #[trigger] gs[g].contains(vx as usize);
        let gx = choose|gx: int| 0 <= gx < gs[g].len() && gs[g][gx] == vx;
        assert(p.members[p.index[gs[g][gx] as int] as int] == gs[g]);
        assert(gs[g] == p.members[c]);
        assert(!test.spec_evicts(gs[g], gs[g][gx]));
    }
    assert forall|c: int, x: int|
        0 <= c < s.members.len() && s.members[c].len() >= 2 && 0 <= x < s.members[c].len() implies v.has_vector@[(#[trigger] s.members[c][x]) as int] by {
        assert(!test.spec_evicts(p.members[c], s.members[c][x]));
    }
    assert forall|c: int, x: int, y: int|
        0 <= c < s.members.len() && 0 <= x < s.members[c].len() && 0 <= y < s.members[c].len() && x != y implies !#[trigger] v.verdict(
        s.members[c][x],
        s.members[c][y],
    ).distant by {
        let vx = s.members[c][x];
        let vy = s.members[c][y];
        assert(s.members[c].no_duplicates());
        assert(vx != vy);
        assert(s.members[c].len() >= 2);
        assert(!test.spec_evicts(p.members[c], s.members[c][x]));
        assert(s.members[c].contains(vy));
        assert(p.members[c].contains(vy));
        let j = choose|j: int| 0 <= j < p.members[c].len() && p.members[c][j] == vy;
        assert(!(p.members[c][j] != vx && v.verdict(vx, p.members[c][j]).distant));
    }
    assert forall|c: int, m: usize|
        #![trigger s.members[c].contains(m)]
        0 <= c < p.members.len() && p.members[c].len() >= 2 && p.members[c].contains(m) && v.has_vector@[m as int]
            && (forall|k: int|
            0 <= k < p.members[c].len() && p.members[c][k] != m ==> !#[trigger] v.verdict(m, p.members[c][k]).distant)
            implies s.members[c].contains(m) by {
        assert(!test.spec_evicts(p.members[c], m));
        if l.contains(m) {
            let i = choose|i: int| 0 <= i < l.len() && l[i] == m;
            assert(sent_away(&test, gs, gs.len(), l[i]));
            let q = choose|q: int|
                0 <= q < gs.len() && gs[q].len() >= 2 && #[trigger] gs[q].contains(l[i]) && test.spec_evicts(gs[q], l[i]);
            let x = choose|x: int| 0 <= x < gs[q].len() && gs[q][x] == m;
            assert(p.members[p.index[gs[q][x] as int] as int] == gs[q]);
            let j = choose|j: int| 0 <= j < p.members[c].len() && p.members[c][j] == m;
            assert(p.index[m as int] == c);
            assert(gs[q] == p.members[c]);
        }
    }
}

/// The hash distance between the two pictures of a pair.
pub open spec fn pair_distance(h: Seq<i64>, q: (usize, usize)) -> nat {
    hamming(h[q.0 as int], h[q.1 as int])
}

proof fn lemma_at_distance_facts(pairs: Seq<(usize, usize)>, h: Seq<i64>, d: nat)
    ensures
        forall|i: int| 0 <= i < at_distance(pairs, h, d).len() ==> pair_distance(h, #[trigger] at_distance(pairs, h, d)[i]) == d,
        forall|e: (usize, usize)|
            #[trigger] at_distance(pairs, h, d).to_multiset().count(e) == if pair_distance(h, e) == d {
                pairs.to_multiset().count(e)
            } else {
                0
            },
    decreases pairs.len(),
{
    broadcast use vstd::seq_lib::group_to_multiset_ensures;
    broadcast use vstd::multiset::group_multiset_axioms;

    if pairs.len() == 0 {
        assert(at_distance(pairs, h, d) =~= Seq::<(usize, usize)>::empty());
        assert(pairs.to_multiset() =~= vstd::multiset::Multiset::<(usize, usize)>::empty());
    } else {
        let t = pairs.drop_last();
        let q = pairs.last();
        lemma_at_distance_facts(t, h, d);
        assert(t.push(q) =~= pairs);
        let prev = at_distance(t, h, d);
        if pair_distance(h, q) == d {
            assert(at_distance(pairs, h, d) == prev.push(q));
            assert forall|i: int| 0 <= i < prev.push(q).len() implies pair_distance(h, #[trigger] prev.push(q)[i]) == d by {
                if i < prev.len() {
                    assert(prev.push(q)[i] == prev[i]);
                }
            }
        } else {
            assert(at_distance(pairs, h, d) == prev);
        }
    }
}

proof fn lemma_by_distance_upto_facts(pairs: Seq<(usize, usize)>, h: Seq<i64>, d: nat)
    ensures
        forall|i: int|
            0 <= i < by_distance_upto(pairs, h, d).len() ==> pair_distance(h, #[trigger] by_distance_upto(pairs, h, d)[i]) < d,
        forall|i: int, j: int|
            0 <= i < j < by_distance_upto(pairs, h, d).len() ==> pair_distance(h, #[trigger] by_distance_upto(pairs, h, d)[i])
                <= pair_distance(h, #[trigger] by_distance_upto(pairs, h, d)[j]),
        forall|e: (usize, usize)|
            #[trigger] by_distance_upto(pairs, h, d).to_multiset().count(e) == if pair_distance(h, e) < d {
                pairs.to_multiset().count(e)
            } else {
                0
            },
    decreases d,
{
    broadcast use vstd::multiset::group_multiset_axioms;

    if d == 0 {
        assert(by_distance_upto(pairs, h, 0) =~= Seq::<(usize, usize)>::empty());
        assert(Seq::<(usize, usize)>::empty().to_multiset() =~= vstd::multiset::Multiset::<(usize, usize)>::empty()) by {
            broadcast use vstd::seq_lib::group_to_multiset_ensures;
        }
    } else {
        let dm = (d - 1) as nat;
        lemma_by_distance_upto_facts(pairs, h, dm);
        lemma_at_distance_facts(pairs, h, dm);
        let a = by_distance_upto(pairs, h, dm);
        let b = at_distance(pairs, h, dm);
        let s = by_distance_upto(pairs, h, d);
        assert(s == a + b);
        vstd::seq_lib::lemma_multiset_commutative(a, b);
        assert forall|i: int| 0 <= i < s.len() implies pair_distance(h, #[trigger] s[i]) < d by {
            if i < a.len() {
                assert(s[i] == a[i]);
            } else {
                assert(s[i] == b[i - a.len()]);
            }
        }
        assert forall|i: int, j: int| 0 <= i < j < s.len() implies pair_distance(h, #[trigger] s[i]) <= pair_distance(
            h,
            #[trigger] s[j],
        ) by {
            if j < a.len() {
                assert(s[i] == a[i]);
                assert(s[j] == a[j]);
            } else if i < a.len() {
                assert(s[i] == a[i]);
                assert(s[j] == b[j - a.len()]);
            } else {
                assert(s[i] == b[i - a.len()]);
                assert(s[j] == b[j - a.len()]);
            }
        }
        assert forall|e: (usize, usize)| #[trigger] s.to_multiset().count(e) == if pair_distance(h, e) < d {
            pairs.to_multiset().count(e)
        } else {
            0
        } by {
            assert(s.to_multiset().count(e) == a.to_multiset().count(e) + b.to_multiset().count(e));
        }
    }
}

/// The order in which the close pairs are tried as merges (`sort_by_distance`):
/// nearest first, and the same pairs as given, each as often. A result that
/// kept the scan order, or dropped or repeated a pair, would break it.
pub proof fn lemma_sorted_by_distance_is_sorted_permutation(pairs: Seq<(usize, usize)>, h: Seq<i64>)
    ensures
        forall|i: int, j: int|
            0 <= i < j < sorted_by_distance(pairs, h).len() ==> pair_distance(h, #[trigger] sorted_by_distance(pairs, h)[i])
                <= pair_distance(h, #[trigger] sorted_by_distance(pairs, h)[j]),
        sorted_by_distance(pairs, h).to_multiset() =~= pairs.to_multiset(),
        sorted_by_distance(pairs, h).len() == pairs.len(),
{
    lemma_by_distance_upto_facts(pairs, h, 65);
    let s = sorted_by_distance(pairs, h);
    assert forall|e: (usize, usize)| #[trigger] s.to_multiset().count(e) == pairs.to_multiset().count(e) by {
        lemma_hamming_laws(h[e.0 as int], h[e.1 as int]);
    }
    assert(s.to_multiset() =~= pairs.to_multiset());
    assert(s.len() == pairs.len()) by {
        broadcast use vstd::seq_lib::group_to_multiset_ensures;
        assert(s.len() == s.to_multiset().len());
        assert(pairs.len() == pairs.to_multiset().len());
    }
}

/// The embeddings-only search (`ai_merge_and_split`, merging along the
/// candidate pairs): with symmetric similarity verdicts, a candidate pair
/// `(i, j)` whose pictures lie in different clusters joins them exactly when
/// every picture of the one cluster is similar to every picture of the
/// other, and the merge is counted.
pub proof fn lemma_ai_merge_joins_similar_clusters(
    p: Partition,
    pairs: Seq<(usize, usize)>,
    i: usize,
    j: usize,
    v: &AiVerdicts,
)
    requires
        p.wf(),
        pairs_within(pairs, p.index.len()),
        (i as int) < p.index.len(),
        (j as int) < p.index.len(),
        forall|a: usize, b: usize| #[trigger] v.verdict(a, b).similar == v.verdict(b, a).similar,
    ensures
        ({
            let q = merged_along(p, pairs, &AiRule { verdicts: v });
            let r = merged_along(p, pairs.push((i, j)), &AiRule { verdicts: v });
            let ci = q.index[i as int] as int;
            let cj = q.index[j as int] as int;
            let all_similar = forall|x: int, y: int|
                0 <= x < q.members[ci].len() && 0 <= y < q.members[cj].len() ==> #[trigger] v.verdict(
                    q.members[ci][x],
                    q.members[cj][y],
                ).similar;
            &&& ci != cj ==> (r.index[i as int] == r.index[j as int] <==> all_similar)
            &&& merges_along(p, pairs.push((i, j)), &AiRule { verdicts: v }) == merges_along(
                p,
                pairs,
                &AiRule { verdicts: v },
            ) + if ci != cj && all_similar {
                1nat
            } else {
                0nat
            }
        }),
{
    let rule = AiRule { verdicts: v };
    let ps = pairs.push((i, j));
    assert(ps.drop_last() =~= pairs);
    assert(ps.last() == (i, j));
    lemma_merged_along_wf(p, pairs, &rule);
    let q = merged_along(p, pairs, &rule);
    let ci = q.index[i as int] as int;
    let cj = q.index[j as int] as int;
    let all_similar = forall|x: int, y: int|
        0 <= x < q.members[ci].len() && 0 <= y < q.members[cj].len() ==> #[trigger] v.verdict(
            q.members[ci][x],
            q.members[cj][y],
        ).similar;
    let (small, large) = q.merge_roles(i, j);
    if ci != cj {
        assert(q.can_merge(i, j, &rule) <==> all_similar) by {
            if small as int == ci {
                if all_similar {
                    assert forall|x: int, y: int|
                        0 <= x < q.members[small as int].len() && 0 <= y < q.members[large as int].len() implies #[trigger] rule.spec_holds(
                        q.members[small as int][x],
                        q.members[large as int][y],
                    ) by {
                        assert(v.verdict(q.members[ci][x], q.members[cj][y]).similar);
                    }
                }
                if q.can_merge(i, j, &rule) {
                    assert forall|x: int, y: int|
                        0 <= x < q.members[ci].len() && 0 <= y < q.members[cj].len() implies #[trigger] v.verdict(
                        q.members[ci][x],
                        q.members[cj][y],
                    ).similar by {
                        assert(rule.spec_holds(q.members[small as int][x], q.members[large as int][y]));
                    }
                }
            } else {
                if all_similar {
                    assert forall|x: int, y: int|
                        0 <= x < q.members[small as int].len() && 0 <= y < q.members[large as int].len() implies #[trigger] rule.spec_holds(
                        q.members[small as int][x],
                        q.members[large as int][y],
                    ) by {
                        assert(v.verdict(q.members[ci][y], q.members[cj][x]).similar);
                        assert(v.verdict(q.members[cj][x], q.members[ci][y]).similar);
                    }
                }
                if q.can_merge(i, j, &rule) {
                    assert forall|x: int, y: int|
                        0 <= x < q.members[ci].len() && 0 <= y < q.members[cj].len() implies #[trigger] v.verdict(
                        q.members[ci][x],
                        q.members[cj][y],
                    ).similar by {
                        assert(rule.spec_holds(q.members[small as int][y], q.members[large as int][x]));
                        assert(v.verdict(q.members[cj][y], q.members[ci][x]).similar);
                    }
                }
            }
        }
        let r = merged_along(p, ps, &rule);
        assert(r == q.try_merged(i, j, &rule));
        if q.can_merge(i, j, &rule) {
            assert(r == q.absorb(large, small));
            assert(r.index[i as int] == large);
            assert(r.index[j as int] == large);
        } else {
            assert(r == q);
        }
    }
}

} // verus!
