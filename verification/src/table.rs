//! Aggregation table: per-station running statistics keyed by the
//! station-name bytes.
//!
//! Entries live in a vector with pairwise-distinct keys; each entry also
//! carries the multiply-xor digest of its key, so a lookup compares
//! digests first and key bytes only on a digest match. The table's view
//! is the map from key bytes to statistics.

use vstd::prelude::*;
use vstd::slice::slice_to_vec;
use crate::hash::{hash_key, spec_hash};
use crate::stats::{SpecStats, add_obs, combine_stats, observe_step};

verus! {

/// Running statistics of one station.
#[derive(Clone, Copy, Debug)]
pub struct Weather {
    /// Number of observations.
    pub total: u32,
    /// Smallest observed value, in tenths.
    pub min: i16,
    /// Largest observed value, in tenths.
    pub max: i16,
    /// Sum of all observed values, in tenths.
    pub sum: i64,
}

/// The mathematical statistics a `Weather` holds.
pub open spec fn stats_of(w: Weather) -> SpecStats {
    SpecStats { total: w.total as int, min: w.min as int, max: w.max as int, sum: w.sum as int }
}

/// One table entry: digest, key bytes, statistics.
struct Entry {
    /// Digest of `key`.
    hash: u64,
    /// Station-name bytes.
    key: Vec<u8>,
    /// Statistics of this station.
    w: Weather,
}

/// The map described by the first `n` entries.
spec fn map_of(es: Seq<Entry>, n: int) -> Map<Seq<u8>, SpecStats>
    decreases n,
{
    if n <= 0 {
        Map::empty()
    } else {
        map_of(es, n - 1).insert(es[n - 1].key@, stats_of(es[n - 1].w))
    }
}

/// The map described by the entries from `i` on.
spec fn map_from(es: Seq<Entry>, i: int) -> Map<Seq<u8>, SpecStats>
    decreases es.len() - i,
{
    if i < 0 || i >= es.len() {
        Map::empty()
    } else {
        map_from(es, i + 1).insert(es[i].key@, stats_of(es[i].w))
    }
}

/// One entry folded into a merge in progress.
spec fn combine_step(
    m: Map<Seq<u8>, SpecStats>,
    k: Seq<u8>,
    st: SpecStats,
) -> Map<Seq<u8>, SpecStats> {
    if m.contains_key(k) {
        m.insert(k, combine_stats(m[k], st))
    } else {
        m.insert(k, st)
    }
}

/// Keys of the first `n` entries are pairwise distinct.
spec fn distinct_keys(es: Seq<Entry>, n: int) -> bool {
    forall|i: int, j: int| 0 <= i < j < n ==> (#[trigger] es[i].key@) != (#[trigger] es[j].key@)
}

proof fn lemma_map_of_contains(es: Seq<Entry>, n: int, k: Seq<u8>)
    requires
        n <= es.len(),
    ensures
        map_of(es, n).contains_key(k) <==> exists|i: int| 0 <= i < n && (#[trigger] es[i].key@)
            == k,
    decreases n,
{
    if n > 0 {
        lemma_map_of_contains(es, n - 1, k);
        if es[n - 1].key@ == k {
            assert(0 <= n - 1 < n && es[n - 1].key@ == k);
        }
    }
}

proof fn lemma_map_of_index(es: Seq<Entry>, n: int, i: int)
    requires
        0 <= i < n <= es.len(),
        distinct_keys(es, n),
    ensures
        map_of(es, n).contains_key(es[i].key@),
        map_of(es, n)[es[i].key@] == stats_of(es[i].w),
    decreases n,
{
    lemma_map_of_contains(es, n, es[i].key@);
    if i < n - 1 {
        lemma_map_of_index(es, n - 1, i);
    }
}

proof fn lemma_map_of_congruent(es1: Seq<Entry>, es2: Seq<Entry>, n: int)
    requires
        n <= es1.len(),
        n <= es2.len(),
        forall|i: int| 0 <= i < n ==> #[trigger] es1[i].key@ == es2[i].key@ && es1[i].w
            == es2[i].w,
    ensures
        map_of(es1, n) == map_of(es2, n),
    decreases n,
{
    if n > 0 {
        lemma_map_of_congruent(es1, es2, n - 1);
    }
}

proof fn lemma_map_of_update(es: Seq<Entry>, n: int, i: int, e2: Entry)
    requires
        0 <= i < n <= es.len(),
        distinct_keys(es, n),
        e2.key@ == es[i].key@,
    ensures
        map_of(es.update(i, e2), n) == map_of(es, n).insert(e2.key@, stats_of(e2.w)),
    decreases n,
{
    let esu = es.update(i, e2);
    if i == n - 1 {
        assert(forall|j: int| 0 <= j < n - 1 ==> #[trigger] esu[j].key@ == es[j].key@ && esu[j].w
            == es[j].w);
        lemma_map_of_congruent(esu, es, n - 1);
        assert(map_of(esu, n) =~= map_of(es, n).insert(e2.key@, stats_of(e2.w)));
    } else {
        lemma_map_of_update(es, n - 1, i, e2);
        assert(esu[n - 1].key@ == es[n - 1].key@ && esu[n - 1].w == es[n - 1].w);
        assert(map_of(esu, n) == map_of(esu, n - 1).insert(
            esu[n - 1].key@,
            stats_of(esu[n - 1].w),
        ));
        assert(map_of(esu, n) =~= map_of(es, n).insert(e2.key@, stats_of(e2.w)));
    }
}

/// Byte-wise equality of a stored key and a probe key.
pub fn bytes_eq(a: &Vec<u8>, b: &[u8]) -> (r: bool)
    ensures
        r == (a@ == b@),
{
    let n = a.len();
    if n != b.len() {
        return false;
    }
    let mut i: usize = 0;
    while i < n
        invariant
            i <= n,
            n == a@.len() == b@.len(),
            forall|j: int| 0 <= j < i ==> a@[j] == b@[j],
        decreases n - i,
    {
        if a[i] != b[i] {
            return false;
        }
        i = i + 1;
    }
    proof {
        assert(a@ =~= b@);
    }
    true
}

/// Hash-keyed aggregation table.
pub struct AggTable {
    entries: Vec<Entry>,
}

impl AggTable {
    /// The map from station-name bytes to statistics that the table holds.
    pub closed spec fn view(&self) -> Map<Seq<u8>, SpecStats> {
        map_of(self.entries@, self.entries@.len() as int)
    }

    /// Keys are pairwise distinct and every stored digest is the digest
    /// of its key.
    pub closed spec fn wf(&self) -> bool {
        &&& distinct_keys(self.entries@, self.entries@.len() as int)
        &&& forall|i: int|
            0 <= i < self.entries@.len() ==> (#[trigger] self.entries@[i]).hash == spec_hash(
                self.entries@[i].key@,
            )
    }

    /// Creates an empty table.
    pub fn new() -> (r: AggTable)
        ensures
            r.wf(),
            r@ == Map::<Seq<u8>, SpecStats>::empty(),
    {
        AggTable { entries: Vec::new() }
    }

    /// Records one observation: a fresh station starts at the observed
    /// value, a known station folds it into its statistics.
    pub fn observe(&mut self, key: &[u8], v: i16)
        requires
            old(self).wf(),
            old(self)@.contains_key(key@) ==> old(self)@[key@].total < 0xFFFF_FFFFu32,
            old(self)@.contains_key(key@) ==> i64::MIN <= old(self)@[key@].sum + v
                <= i64::MAX,
        ensures
            final(self).wf(),
            final(self)@ == observe_step(old(self)@, (key@, v as int)),
    {
        let h = hash_key(key);
        let n = self.entries.len();
        let mut i: usize = 0;
        while i < n
            invariant
                i <= n,
                n == self.entries@.len(),
                *self == *old(self),
                old(self).wf(),
                h == spec_hash(key@),
                old(self)@.contains_key(key@) ==> old(self)@[key@].total < 0xFFFF_FFFFu32,
                old(self)@.contains_key(key@) ==> i64::MIN <= old(self)@[key@].sum + v
                    <= i64::MAX,
                forall|j: int| 0 <= j < i ==> (#[trigger] self.entries@[j].key@) != key@,
            decreases n - i,
        {
            if self.entries[i].hash == h {
                if bytes_eq(&self.entries[i].key, key) {
                    let w = self.entries[i].w;
                    proof {
                        lemma_map_of_index(self.entries@, n as int, i as int);
                        assert(self.entries@[i as int].key@ == key@);
                        assert(old(self)@.contains_key(key@));
                        assert(old(self)@[key@] == stats_of(self.entries@[i as int].w));
                        assert(w == self.entries@[i as int].w);
                    }
                    let neww = Weather {
                        total: w.total + 1,
                        min: if v < w.min {
                            v
                        } else {
                            w.min
                        },
                        max: if v > w.max {
                            v
                        } else {
                            w.max
                        },
                        sum: w.sum + v as i64,
                    };
                    let ghost es_before = self.entries@;
                    self.entries[i].w = neww;
                    proof {
                        assert(self.entries@ =~= es_before.update(
                            i as int,
                            Entry { w: neww, ..es_before[i as int] },
                        ));
                        lemma_map_of_update(
                            es_before,
                            n as int,
                            i as int,
                            Entry { w: neww, ..es_before[i as int] },
                        );
                        assert(stats_of(neww) == add_obs(old(self)@[key@], v as int));
                        assert(final(self)@ =~= observe_step(old(self)@, (key@, v as int)));
                    }
                    return;
                }
            }
            i = i + 1;
        }
        proof {
            lemma_map_of_contains(self.entries@, n as int, key@);
            assert(!old(self)@.contains_key(key@));
        }
        let kv = slice_to_vec(key);
        let ghost es_before = self.entries@;
        self.entries.push(
            Entry { hash: h, key: kv, w: Weather { total: 1, min: v, max: v, sum: v as i64 } },
        );
        proof {
            lemma_map_of_congruent(self.entries@, es_before, n as int);
            assert(final(self)@ =~= observe_step(old(self)@, (key@, v as int)));
            assert forall|i1: int, j1: int|
                0 <= i1 < j1 < self.entries@.len() implies (#[trigger] self.entries@[i1].key@)
                != (#[trigger] self.entries@[j1].key@) by {
                if j1 < n {
                } else {
                    assert(self.entries@[j1].key@ == key@);
                }
            }
        }
    }

    /// Folds one whole entry into the table, combining statistics on a
    /// key hit.
    fn upsert_combine(&mut self, e: Entry)
        requires
            old(self).wf(),
            e.hash == spec_hash(e.key@),
            old(self)@.contains_key(e.key@) ==> old(self)@[e.key@].total + e.w.total
                <= 0xFFFF_FFFFu32,
            old(self)@.contains_key(e.key@) ==> i64::MIN <= old(self)@[e.key@].sum + e.w.sum
                <= i64::MAX,
        ensures
            final(self).wf(),
            final(self)@ == combine_step(old(self)@, e.key@, stats_of(e.w)),
    {
        let n = self.entries.len();
        let mut i: usize = 0;
        while i < n
            invariant
                i <= n,
                n == self.entries@.len(),
                *self == *old(self),
                old(self).wf(),
                e.hash == spec_hash(e.key@),
                old(self)@.contains_key(e.key@) ==> old(self)@[e.key@].total + e.w.total
                    <= 0xFFFF_FFFFu32,
                old(self)@.contains_key(e.key@) ==> i64::MIN <= old(self)@[e.key@].sum + e.w.sum
                    <= i64::MAX,
                forall|j: int| 0 <= j < i ==> (#[trigger] self.entries@[j].key@) != e.key@,
            decreases n - i,
        {
            if self.entries[i].hash == e.hash {
                if bytes_eq(&self.entries[i].key, e.key.as_slice()) {
                    let w = self.entries[i].w;
                    proof {
                        lemma_map_of_index(self.entries@, n as int, i as int);
                        assert(self.entries@[i as int].key@ == e.key@);
                        assert(old(self)@.contains_key(e.key@));
                        assert(old(self)@[e.key@] == stats_of(self.entries@[i as int].w));
                        assert(w == self.entries@[i as int].w);
                    }
                    let neww = Weather {
                        total: w.total + e.w.total,
                        min: if e.w.min < w.min {
                            e.w.min
                        } else {
                            w.min
                        },
                        max: if e.w.max > w.max {
                            e.w.max
                        } else {
                            w.max
                        },
                        sum: w.sum + e.w.sum,
                    };
                    let ghost es_before = self.entries@;
                    self.entries[i].w = neww;
                    proof {
                        assert(self.entries@ =~= es_before.update(
                            i as int,
                            Entry { w: neww, ..es_before[i as int] },
                        ));
                        lemma_map_of_update(
                            es_before,
                            n as int,
                            i as int,
                            Entry { w: neww, ..es_before[i as int] },
                        );
                        assert(stats_of(neww) == combine_stats(old(self)@[e.key@], stats_of(e.w)));
                        assert(final(self)@ =~= combine_step(old(self)@, e.key@, stats_of(e.w)));
                    }
                    return;
                }
            }
            i = i + 1;
        }
        proof {
            lemma_map_of_contains(self.entries@, n as int, e.key@);
            assert(!old(self)@.contains_key(e.key@));
        }
        let ghost es_before = self.entries@;
        let ghost ekey = e.key@;
        self.entries.push(e);
        proof {
            lemma_map_of_congruent(self.entries@, es_before, n as int);
            assert(final(self)@ =~= combine_step(old(self)@, ekey, stats_of(e.w)));
            assert forall|i1: int, j1: int|
                0 <= i1 < j1 < self.entries@.len() implies (#[trigger] self.entries@[i1].key@)
                != (#[trigger] self.entries@[j1].key@) by {
                if j1 < n {
                } else {
                    assert(self.entries@[j1].key@ == ekey);
                }
            }
        }
    }

    /// Merges another table into this one by union-with-combine on key:
    /// totals and sums add, minima and maxima take the extremes.
    pub fn merge(&mut self, other: AggTable)
        requires
            old(self).wf(),
            other.wf(),
            forall|k: Seq<u8>|
                #[trigger] old(self)@.contains_key(k) && other@.contains_key(k) ==> old(
                    self,
                )@[k].total + other@[k].total <= 0xFFFF_FFFFu32 && i64::MIN <= old(self)@[k].sum
                    + other@[k].sum <= i64::MAX,
        ensures
            final(self).wf(),
            final(self)@ == crate::stats::merge_map(old(self)@, other@),
    {
        let ghost orig = other.entries@;
        let ghost n_orig = orig.len() as int;
        let mut rest = other;
        proof {
            lemma_map_from_empty(orig, n_orig);
            lemma_merge_map_unit(old(self)@);
            lemma_map_of_eq_map_from(orig, n_orig);
            assert(orig.take(n_orig) =~= orig);
        }
        while rest.entries.len() > 0
            invariant
                self.wf(),
                rest.wf(),
                n_orig == orig.len(),
                rest.entries@ == orig.take(rest.entries@.len() as int),
                rest.entries@.len() <= n_orig,
                distinct_keys(orig, n_orig),
                forall|i: int|
                    0 <= i < n_orig ==> (#[trigger] orig[i]).hash == spec_hash(orig[i].key@),
                self@ == crate::stats::merge_map(
                    old(self)@,
                    map_from(orig, rest.entries@.len() as int),
                ),
                forall|k: Seq<u8>|
                    #[trigger] old(self)@.contains_key(k) && map_of(orig, n_orig).contains_key(k)
                        ==> old(self)@[k].total + map_of(orig, n_orig)[k].total
                        <= 0xFFFF_FFFFu32 && i64::MIN <= old(self)@[k].sum + map_of(
                        orig,
                        n_orig,
                    )[k].sum <= i64::MAX,
            decreases rest.entries@.len(),
        {
            let ghost m = rest.entries@.len() as int;
            let e_opt = rest.entries.pop();
            let e = e_opt.unwrap();
            proof {
                assert(orig.take(m)[m - 1] == orig[m - 1]);
                assert(orig.take(m).subrange(0, m - 1) =~= orig.take(m - 1));
                assert(rest.entries@ =~= orig.take(m - 1));
                assert(e == orig[m - 1]);
                lemma_map_from_unfold(orig, m - 1);
                lemma_map_from_not_contains(orig, m - 1, n_orig);
                if old(self)@.contains_key(e.key@) {
                    lemma_map_of_index(orig, n_orig, m - 1);
                }
                lemma_merge_not_in_right(old(self)@, map_from(orig, m), e.key@);
            }
            self.upsert_combine(e);
            proof {
                lemma_merge_insert(
                    old(self)@,
                    map_from(orig, m),
                    orig[m - 1].key@,
                    stats_of(orig[m - 1].w),
                );
            }
        }
        proof {
            assert(map_from(orig, 0) == map_of(orig, n_orig) || n_orig == 0);
            if n_orig == 0 {
                assert(map_of(orig, 0) =~= Map::<Seq<u8>, SpecStats>::empty());
                assert(map_from(orig, 0) =~= Map::<Seq<u8>, SpecStats>::empty());
            }
        }
    }

    /// Hands the table out as (station, statistics) pairs with pairwise
    /// distinct keys, one pair per station.
    pub fn into_pairs(self) -> (r: Vec<(Vec<u8>, Weather)>)
        requires
            self.wf(),
        ensures
            forall|i: int, j: int|
                0 <= i < j < r@.len() ==> (#[trigger] r@[i].0@) != (#[trigger] r@[j].0@),
            forall|i: int|
                0 <= i < r@.len() ==> self@.contains_key((#[trigger] r@[i]).0@) && self@[r@[i].0@]
                    == stats_of(r@[i].1),
            forall|k: Seq<u8>|
                self@.contains_key(k) ==> exists|i: int|
                    0 <= i < r@.len() && (#[trigger] r@[i].0@) == k,
    {
        let ghost orig = self.entries@;
        let ghost n_orig = orig.len() as int;
        let ghost view0 = self@;
        let mut src = self;
        let mut r: Vec<(Vec<u8>, Weather)> = Vec::new();
        proof {
            assert(orig.take(n_orig) =~= orig);
        }
        while src.entries.len() > 0
            invariant
                n_orig == orig.len(),
                distinct_keys(orig, n_orig),
                src.entries@ == orig.take(src.entries@.len() as int),
                r@.len() == n_orig - src.entries@.len(),
                forall|i: int|
                    0 <= i < r@.len() ==> (#[trigger] r@[i]).0@ == orig[n_orig - 1 - i].key@
                        && r@[i].1 == orig[n_orig - 1 - i].w,
            decreases src.entries@.len(),
        {
            let ghost m = src.entries@.len() as int;
            let e = src.entries.pop().unwrap();
            proof {
                assert(orig.take(m)[m - 1] == orig[m - 1]);
                assert(orig.take(m).subrange(0, m - 1) =~= orig.take(m - 1));
            }
            r.push((e.key, e.w));
        }
        proof {
            assert forall|i: int| 0 <= i < r@.len() implies view0.contains_key(
                (#[trigger] r@[i]).0@,
            ) && view0[r@[i].0@] == stats_of(r@[i].1) by {
                lemma_map_of_index(orig, n_orig, n_orig - 1 - i);
            }
            assert forall|k: Seq<u8>| view0.contains_key(k) implies exists|i: int|
                0 <= i < r@.len() && (#[trigger] r@[i].0@) == k by {
                lemma_map_of_contains(orig, n_orig, k);
                let j = choose|j: int| 0 <= j < n_orig && orig[j].key@ == k;
                assert(r@[n_orig - 1 - j].0@ == k);
            }
        }
        r
    }
}

proof fn lemma_map_from_empty(es: Seq<Entry>, n: int)
    ensures
        map_from(es, es.len() as int) == Map::<Seq<u8>, SpecStats>::empty(),
{
}

proof fn lemma_merge_map_unit(m: Map<Seq<u8>, SpecStats>)
    ensures
        crate::stats::merge_map(m, Map::empty()) == m,
{
    assert(crate::stats::merge_map(m, Map::<Seq<u8>, SpecStats>::empty()) =~= m);
}

/// The suffix map from the start equals the prefix map of everything.
proof fn lemma_map_of_eq_map_from(es: Seq<Entry>, n: int)
    requires
        n == es.len(),
        distinct_keys(es, n),
    ensures
        map_from(es, 0) == map_of(es, n),
{
    assert forall|k: Seq<u8>| #[trigger] map_from(es, 0).contains_key(k) <==> map_of(
        es,
        n,
    ).contains_key(k) by {
        lemma_map_from_contains(es, 0, k);
        lemma_map_of_contains(es, n, k);
    }
    assert forall|k: Seq<u8>| #[trigger] map_from(es, 0).contains_key(k) implies map_from(
        es,
        0,
    )[k] == map_of(es, n)[k] by {
        lemma_map_from_contains(es, 0, k);
        let j = choose|j: int| 0 <= j < es.len() && es[j].key@ == k;
        lemma_map_from_index(es, 0, j);
        lemma_map_of_index(es, n, j);
    }
    assert(map_from(es, 0) =~= map_of(es, n));
}

proof fn lemma_map_from_index(es: Seq<Entry>, i: int, j: int)
    requires
        0 <= i <= j < es.len(),
        distinct_keys(es, es.len() as int),
    ensures
        map_from(es, i).contains_key(es[j].key@),
        map_from(es, i)[es[j].key@] == stats_of(es[j].w),
    decreases j - i,
{
    if i < j {
        lemma_map_from_index(es, i + 1, j);
    }
}

proof fn lemma_map_from_unfold(es: Seq<Entry>, i: int)
    requires
        0 <= i < es.len(),
    ensures
        map_from(es, i) == map_from(es, i + 1).insert(es[i].key@, stats_of(es[i].w)),
{
}

proof fn lemma_map_from_not_contains(es: Seq<Entry>, i: int, n: int)
    requires
        n == es.len(),
        distinct_keys(es, n),
        0 <= i < n,
    ensures
        !map_from(es, i + 1).contains_key(es[i].key@),
{
    lemma_map_from_contains(es, i + 1, es[i].key@);
}

proof fn lemma_map_from_contains(es: Seq<Entry>, i: int, k: Seq<u8>)
    requires
        0 <= i <= es.len(),
    ensures
        map_from(es, i).contains_key(k) <==> exists|j: int| i <= j < es.len() && (
        #[trigger] es[j].key@) == k,
    decreases es.len() - i,
{
    if i < es.len() {
        lemma_map_from_contains(es, i + 1, k);
        if es[i].key@ == k {
            assert(i <= i < es.len() && es[i].key@ == k);
        }
    }
}

/// A key absent from the right table passes through a merge untouched,
/// and the merged entry for it is the left table's.
proof fn lemma_merge_not_in_right(
    m1: Map<Seq<u8>, SpecStats>,
    m2: Map<Seq<u8>, SpecStats>,
    k: Seq<u8>,
)
    requires
        !m2.contains_key(k),
    ensures
        crate::stats::merge_map(m1, m2).contains_key(k) <==> m1.contains_key(k),
        m1.contains_key(k) ==> crate::stats::merge_map(m1, m2)[k] == m1[k],
{
}

/// Folding an entry whose key is fresh on the right into a finished
/// merge equals merging with the extended right table.
proof fn lemma_merge_insert(
    m1: Map<Seq<u8>, SpecStats>,
    m2: Map<Seq<u8>, SpecStats>,
    k: Seq<u8>,
    st: SpecStats,
)
    requires
        !m2.contains_key(k),
    ensures
        crate::stats::merge_map(m1, m2.insert(k, st)) == combine_step(
            crate::stats::merge_map(m1, m2),
            k,
            st,
        ),
{
    assert(crate::stats::merge_map(m1, m2.insert(k, st)) =~= combine_step(
        crate::stats::merge_map(m1, m2),
        k,
        st,
    ));
}

} // verus!
