//! Per-station temperature statistics over `station;temperature` records.
//!
//! The input is a byte buffer of newline-terminated records. Each record
//! holds a station name and a fixed-point temperature separated by `;`.
//! The library scans the buffer for delimiters, extracts field spans,
//! parses temperatures into tenths-of-a-degree integers, accumulates
//! per-station statistics in a hash-assisted table, merges per-partition
//! tables, and renders a sorted summary wrapped in braces.

pub mod envelope;
pub mod format;
pub mod hash;
pub mod model;
pub mod partition;
pub mod pipeline;
pub mod scan;
pub mod stats;
pub mod table;
pub mod temp;

use vstd::prelude::*;
use crate::format::{
    format_summary, lex_lt, sorted_pairs, sorted_strict, spec_format, summary_matches,
    summary_of_pairs, SummaryEntry,
};
use crate::model::{records_of, well_formed};
use crate::partition::partition_ok;
use crate::pipeline::{get_map_with_workers, parse, RunError};
use crate::stats::{aggregate, lemma_aggregate_bounds};
use crate::table::{stats_of, Weather};

verus! {

/// Builds the whole buffer's aggregation table and hands it out as
/// (station, statistics) pairs sorted ascending by station name.
pub fn get_map(bytes: &[u8]) -> (r: Result<Vec<(Vec<u8>, Weather)>, RunError>)
    requires
        bytes@.len() < 0x2_0000_0000,
        bytes@.len() + 64 <= usize::MAX,
    ensures
        match r {
            Ok(pairs) => {
                let m = aggregate(records_of(bytes@));
                &&& well_formed(bytes@)
                &&& (forall|i: int, j: int|
                    0 <= i < j < pairs@.len() ==> lex_lt(
                        (#[trigger] pairs@[i]).0@,
                        (#[trigger] pairs@[j]).0@,
                    ))
                &&& (forall|i: int|
                    0 <= i < pairs@.len() ==> m.contains_key((#[trigger] pairs@[i]).0@)
                        && m[pairs@[i].0@] == stats_of(pairs@[i].1))
                &&& (forall|k: Seq<u8>|
                    m.contains_key(k) ==> exists|i: int|
                        0 <= i < pairs@.len() && (#[trigger] pairs@[i].0@) == k)
            },
            Err(e) => e == RunError::Malformed && !well_formed(bytes@),
        },
{
    match parse(bytes) {
        Err(e) => Err(e),
        Ok(t) => {
            let ghost m = aggregate(records_of(bytes@));
            let pairs = sorted_pairs(t);
            proof {
                assert(t@ == m);
                assert(forall|i: int, j: int|
                    0 <= i < j < pairs@.len() ==> lex_lt(
                        (#[trigger] pairs@[i]).0@,
                        (#[trigger] pairs@[j]).0@,
                    ));
                assert(forall|i: int|
                    0 <= i < pairs@.len() ==> m.contains_key((#[trigger] pairs@[i]).0@)
                        && m[pairs@[i].0@] == stats_of(pairs@[i].1));
                assert(forall|k: Seq<u8>|
                    m.contains_key(k) ==> exists|i: int|
                        0 <= i < pairs@.len() && (#[trigger] pairs@[i].0@) == k);
            }
            Ok(pairs)
        },
    }
}

/// Runs the full pipeline: partitions the buffer over `workers` ranges,
/// aggregates each, merges, sorts, and renders the summary.
///
/// The output bytes render the sorted summary of the buffer's
/// per-station statistics.
pub fn run(data: &[u8], workers: usize) -> (r: Result<Vec<u8>, RunError>)
    requires
        1 <= workers,
        data@.len() < 0x2_0000_0000,
        data@.len() + 64 <= usize::MAX,
    ensures
        match r {
            Ok(out) => well_formed(data@) && partition_ok(data@, workers as int) && (exists|
                es: Seq<SummaryEntry>,
            |
                sorted_strict(es) && summary_matches(es, aggregate(records_of(data@))) && out@
                    == spec_format(es)),
            Err(e) => (e == RunError::NoTerminator && !partition_ok(data@, workers as int)) || (
            e == RunError::Malformed && !well_formed(data@)),
        },
{
    let t = match get_map_with_workers(data, workers) {
        Err(e) => {
            return Err(e);
        },
        Ok(t) => t,
    };
    let ghost m = aggregate(records_of(data@));
    let pairs = sorted_pairs(t);
    proof {
        crate::model::lemma_records_range(data@);
        crate::model::lemma_seps_len_bound(data@);
        lemma_aggregate_bounds(records_of(data@));
        assert forall|i: int| 0 <= i < pairs@.len() implies (#[trigger] pairs@[i]).1.total >= 1
            && -0x4_0000_0000_0000 <= pairs@[i].1.sum <= 0x4_0000_0000_0000 by {
            let st = m[pairs@[i].0@];
            assert(st == stats_of(pairs@[i].1));
            assert(1 <= st.total <= records_of(data@).len());
            assert(records_of(data@).len() <= 0x1_0000_0000);
            assert(-999 * st.total <= st.sum <= 999 * st.total);
            assert(999 * st.total <= 999 * 0x1_0000_0000int) by (nonlinear_arith)
                requires
                    0 <= st.total <= 0x1_0000_0000int,
            ;
            assert(-999 * st.total >= -999 * 0x1_0000_0000int) by (nonlinear_arith)
                requires
                    0 <= st.total <= 0x1_0000_0000int,
            ;
        }
    }
    let out = format_summary(&pairs);
    proof {
        let es = summary_of_pairs(pairs@);
        assert(sorted_strict(es));
        assert(summary_matches(es, m)) by {
            assert forall|k: Seq<u8>| m.contains_key(k) implies exists|i: int|
                0 <= i < es.len() && (#[trigger] es[i]).0 == k by {
                let i = choose|i: int| 0 <= i < pairs@.len() && (#[trigger] pairs@[i].0@) == k;
                assert(es[i].0 == k);
            }
        }
    }
    Ok(out)
}

} // verus!
