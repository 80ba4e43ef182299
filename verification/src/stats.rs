//! Model of per-station statistics and of table aggregation and merge.
//!
//! A table is modelled as a map from station-name bytes to running
//! statistics. Observing a record either inserts a fresh entry or folds
//! the value into the existing one; merging two tables combines entries
//! key by key. Both are order-independent, which is what lets partitions
//! be processed in any order or grouping.

use vstd::prelude::*;
use vstd::seq_lib::{commutative_foldl, lemma_fold_left_permutation};
use crate::model::Rec;

verus! {

/// Running statistics of one station, in unbounded integers.
pub struct SpecStats {
    /// Number of observations.
    pub total: int,
    /// Smallest observed value, in tenths.
    pub min: int,
    /// Largest observed value, in tenths.
    pub max: int,
    /// Sum of all observed values, in tenths.
    pub sum: int,
}

/// Statistics after a single observation.
pub open spec fn one_obs(v: int) -> SpecStats {
    SpecStats { total: 1, min: v, max: v, sum: v }
}

/// Statistics after folding one more observation in.
pub open spec fn add_obs(st: SpecStats, v: int) -> SpecStats {
    SpecStats {
        total: st.total + 1,
        min: if v < st.min { v } else { st.min },
        max: if v > st.max { v } else { st.max },
        sum: st.sum + v,
    }
}

/// Combined statistics of two tables' entries for one station.
pub open spec fn combine_stats(a: SpecStats, b: SpecStats) -> SpecStats {
    SpecStats {
        total: a.total + b.total,
        min: if a.min < b.min { a.min } else { b.min },
        max: if a.max > b.max { a.max } else { b.max },
        sum: a.sum + b.sum,
    }
}

/// One observation applied to a table.
pub open spec fn observe_step(m: Map<Seq<u8>, SpecStats>, r: Rec) -> Map<Seq<u8>, SpecStats> {
    if m.contains_key(r.0) {
        m.insert(r.0, add_obs(m[r.0], r.1))
    } else {
        m.insert(r.0, one_obs(r.1))
    }
}

/// The table obtained by observing a sequence of records in order.
pub open spec fn aggregate(rs: Seq<Rec>) -> Map<Seq<u8>, SpecStats> {
    rs.fold_left(Map::empty(), |m: Map<Seq<u8>, SpecStats>, r: Rec| observe_step(m, r))
}

/// Union-with-combine of two tables.
pub open spec fn merge_map(
    m1: Map<Seq<u8>, SpecStats>,
    m2: Map<Seq<u8>, SpecStats>,
) -> Map<Seq<u8>, SpecStats> {
    Map::new(
        |k: Seq<u8>| m1.contains_key(k) || m2.contains_key(k),
        |k: Seq<u8>|
            if m1.contains_key(k) && m2.contains_key(k) {
                combine_stats(m1[k], m2[k])
            } else if m1.contains_key(k) {
                m1[k]
            } else {
                m2[k]
            },
    )
}

/// Observations commute: applying two records in either order yields the
/// same table.
pub proof fn lemma_observe_commutes(m: Map<Seq<u8>, SpecStats>, a: Rec, b: Rec)
    ensures
        observe_step(observe_step(m, a), b) == observe_step(observe_step(m, b), a),
{
    assert(observe_step(observe_step(m, a), b) =~= observe_step(observe_step(m, b), a));
}

/// Observing records in any order yields the same table: aggregation over
/// any permutation of the same records gives identical statistics per
/// station.
pub proof fn lemma_aggregate_permutation(rs1: Seq<Rec>, rs2: Seq<Rec>)
    requires
        rs1.to_multiset() == rs2.to_multiset(),
    ensures
        aggregate(rs1) == aggregate(rs2),
{
    let f = |m: Map<Seq<u8>, SpecStats>, r: Rec| observe_step(m, r);
    assert(commutative_foldl(f)) by {
        assert forall|x: Rec, y: Rec, v: Map<Seq<u8>, SpecStats>| #[trigger]
            f(f(v, x), y) == f(f(v, y), x) by {
            lemma_observe_commutes(v, x, y);
        }
    }
    lemma_fold_left_permutation(rs1, rs2, f, Map::empty());
}

/// Unfolding: aggregating one more record observes it on the table so far.
pub proof fn lemma_aggregate_push(rs: Seq<Rec>, r: Rec)
    ensures
        aggregate(rs.push(r)) == observe_step(aggregate(rs), r),
{
    let f = |m: Map<Seq<u8>, SpecStats>, r: Rec| observe_step(m, r);
    assert(rs.push(r).drop_last() =~= rs);
    assert(rs.push(r).last() == r);
    assert(rs.push(r).fold_left(Map::empty(), f) == f(rs.fold_left(Map::empty(), f), r));
}

/// Merging is commutative.
pub proof fn lemma_merge_comm(m1: Map<Seq<u8>, SpecStats>, m2: Map<Seq<u8>, SpecStats>)
    ensures
        merge_map(m1, m2) == merge_map(m2, m1),
{
    assert(merge_map(m1, m2) =~= merge_map(m2, m1));
}

/// Merging is associative.
pub proof fn lemma_merge_assoc(
    m1: Map<Seq<u8>, SpecStats>,
    m2: Map<Seq<u8>, SpecStats>,
    m3: Map<Seq<u8>, SpecStats>,
)
    ensures
        merge_map(merge_map(m1, m2), m3) == merge_map(m1, merge_map(m2, m3)),
{
    assert(merge_map(merge_map(m1, m2), m3) =~= merge_map(m1, merge_map(m2, m3)));
}

/// The empty table is a unit of merging.
pub proof fn lemma_merge_empty(m: Map<Seq<u8>, SpecStats>)
    ensures
        merge_map(m, Map::empty()) == m,
        merge_map(Map::empty(), m) == m,
{
    assert(merge_map(m, Map::empty()) =~= m);
    assert(merge_map(Map::empty(), m) =~= m);
}

/// Observing into the right operand of a merge observes into the merge.
pub proof fn lemma_merge_observe(
    m1: Map<Seq<u8>, SpecStats>,
    m2: Map<Seq<u8>, SpecStats>,
    r: Rec,
)
    ensures
        merge_map(m1, observe_step(m2, r)) == observe_step(merge_map(m1, m2), r),
{
    assert(merge_map(m1, observe_step(m2, r)) =~= observe_step(merge_map(m1, m2), r));
}

/// Merging per-partition tables equals one sequential pass over the
/// concatenated records: the merge of the aggregates is the aggregate of
/// the concatenation.
pub proof fn lemma_merge_aggregate(rs1: Seq<Rec>, rs2: Seq<Rec>)
    ensures
        aggregate(rs1 + rs2) == merge_map(aggregate(rs1), aggregate(rs2)),
    decreases rs2.len(),
{
    if rs2.len() == 0 {
        assert(rs1 + rs2 =~= rs1);
        assert(aggregate(rs2) =~= Map::<Seq<u8>, SpecStats>::empty()) by {
            assert(rs2 =~= Seq::<Rec>::empty());
        }
        lemma_merge_empty(aggregate(rs1));
    } else {
        let r = rs2.last();
        let rs2p = rs2.drop_last();
        lemma_merge_aggregate(rs1, rs2p);
        assert(rs1 + rs2 =~= (rs1 + rs2p).push(r));
        lemma_aggregate_push(rs1 + rs2p, r);
        assert(rs2p.push(r) =~= rs2);
        lemma_aggregate_push(rs2p, r);
        lemma_merge_observe(aggregate(rs1), aggregate(rs2p), r);
    }
}

/// Every statistic the aggregate of `rs` holds is bounded by the number
/// and range of the observations.
pub proof fn lemma_aggregate_bounds(rs: Seq<Rec>)
    requires
        forall|i: int| 0 <= i < rs.len() ==> -999 <= (#[trigger] rs[i]).1 <= 999,
    ensures
        forall|k: Seq<u8>| #[trigger] aggregate(rs).contains_key(k) ==> {
            let st = aggregate(rs)[k];
            1 <= st.total <= rs.len() && -999 <= st.min <= 999 && -999 <= st.max <= 999
                && st.min <= st.max && -999 * st.total <= st.sum <= 999 * st.total
        },
    decreases rs.len(),
{
    if rs.len() > 0 {
        let rsp = rs.drop_last();
        let r = rs.last();
        assert(forall|i: int| 0 <= i < rsp.len() ==> rsp[i] == rs[i]);
        lemma_aggregate_bounds(rsp);
        assert(rsp.push(r) =~= rs);
        lemma_aggregate_push(rsp, r);
        assert(aggregate(rs) == observe_step(aggregate(rsp), r));
    }
}

} // verus!
