//! The parse-and-aggregate pipeline over one buffer.
//!
//! `parse` scans the buffer for delimiters, validates the record shape,
//! and folds every record into an aggregation table. Malformed input is
//! rejected before aggregation begins, so a successful result always
//! describes the whole buffer. Every record must end in the terminator,
//! the final one included: a dangling final record is rejected, never
//! silently dropped.

use vstd::prelude::*;
use vstd::slice::slice_subrange;
use crate::model::{
    field_start, lemma_records_range, lemma_seps_in_facts, lemma_seps_len_bound, lemma_wf_split,
    num_records, records_of, seps, station_at, temp_bytes_at, well_formed,
};
use crate::partition::{partition, partition_ok};
use crate::stats::lemma_merge_aggregate;
use crate::scan::collect_fields;
use crate::stats::{aggregate, lemma_aggregate_bounds, lemma_aggregate_push, SpecStats};
use crate::table::AggTable;
use crate::temp::{is_temp_exec, parse_temp};

verus! {

/// Why a run failed.
#[derive(Clone, Copy, Debug, PartialEq, Eq, Structural)]
pub enum RunError {
    /// The buffer does not match the record grammar.
    Malformed,
    /// A partition split point found no record terminator to snap to.
    NoTerminator,
}

/// Checks the collected field spans against the record grammar.
fn check_wf(data: &[u8], fields: &Vec<(usize, usize)>) -> (b: bool)
    requires
        fields@.len() == seps(data@).len(),
        forall|j: int|
            0 <= j < fields@.len() ==> (#[trigger] fields@[j]).0 as int == field_start(data@, j)
                && fields@[j].1 as int == seps(data@)[j],
    ensures
        b == well_formed(data@),
{
    let nf = fields.len();
    let len = data.len();
    if nf % 2 != 0 {
        return false;
    }
    if len > 0 {
        if nf == 0 {
            return false;
        }
        let e = fields[nf - 1].1;
        proof {
            lemma_seps_in_facts(data@, 0, data@.len() as int);
        }
        if e != len - 1 {
            return false;
        }
    }
    let half = nf / 2;
    let mut k: usize = 0;
    while k < half
        invariant
            k <= half,
            half == nf / 2,
            nf % 2 == 0,
            nf == fields@.len(),
            len == data@.len(),
            fields@.len() == seps(data@).len(),
            forall|j: int|
                0 <= j < fields@.len() ==> (#[trigger] fields@[j]).0 as int == field_start(
                    data@,
                    j,
                ) && fields@[j].1 as int == seps(data@)[j],
            forall|q: int| 0 <= q < k ==> data@[#[trigger] seps(data@)[2 * q]] == 59,
            forall|q: int| 0 <= q < k ==> data@[#[trigger] seps(data@)[2 * q + 1]] == 10,
            forall|q: int|
                0 <= q < k ==> field_start(data@, 2 * q) < #[trigger] seps(data@)[2 * q],
            forall|q: int|
                0 <= q < k ==> crate::temp::is_temp(
                    data@.subrange(#[trigger] seps(data@)[2 * q] + 1, seps(data@)[2 * q + 1]),
                ),
        decreases half - k,
    {
        proof {
            lemma_seps_in_facts(data@, 0, data@.len() as int);
            assert(fields@[2 * k as int].1 as int == seps(data@)[2 * k as int]);
            assert(fields@[2 * k as int + 1].1 as int == seps(data@)[2 * k as int + 1]);
            assert(fields@[2 * k as int + 1].0 as int == field_start(data@, 2 * k as int + 1));
        }
        let se = fields[2 * k].1;
        let ss = fields[2 * k].0;
        if data[se] != 59 {
            proof {
                if well_formed(data@) {
                    assert(data@[seps(data@)[2 * (k as int)]] == 59);
                }
            }
            return false;
        }
        let ts = fields[2 * k + 1].0;
        let te = fields[2 * k + 1].1;
        if data[te] != 10 {
            proof {
                if well_formed(data@) {
                    assert(data@[seps(data@)[2 * (k as int) + 1]] == 10);
                }
            }
            return false;
        }
        if ss >= se {
            proof {
                if well_formed(data@) {
                    assert(field_start(data@, 2 * (k as int)) < seps(data@)[2 * (k as int)]);
                }
            }
            return false;
        }
        let tslice = slice_subrange(data, ts, te);
        if !is_temp_exec(tslice) {
            proof {
                if well_formed(data@) {
                    assert(crate::temp::is_temp(
                        data@.subrange(seps(data@)[2 * (k as int)] + 1, seps(data@)[2 * (k as int) + 1]),
                    ));
                }
            }
            return false;
        }
        k = k + 1;
    }
    proof {
        lemma_seps_in_facts(data@, 0, data@.len() as int);
        if len > 0 {
            assert(fields@[nf - 1].1 as int == seps(data@)[nf - 1]);
        }
        assert(well_formed(data@));
    }
    true
}

/// Parses the whole buffer into an aggregation table.
///
/// On well-formed input the table holds exactly the aggregate of the
/// buffer's records; malformed input is rejected as a whole.
pub fn parse(data: &[u8]) -> (r: Result<AggTable, RunError>)
    requires
        data@.len() < 0x2_0000_0000,
        data@.len() + 64 <= usize::MAX,
    ensures
        match r {
            Ok(t) => t.wf() && well_formed(data@) && t@ == aggregate(records_of(data@)),
            Err(e) => e == RunError::Malformed && !well_formed(data@),
        },
{
    let fields = collect_fields(data);
    if !check_wf(data, &fields) {
        return Err(RunError::Malformed);
    }
    let len = data.len();
    let nf = fields.len();
    let nrec = nf / 2;
    let ghost rs = records_of(data@);
    proof {
        lemma_seps_len_bound(data@);
        assert(rs.len() == num_records(data@));
        assert(aggregate(rs.take(0)) =~= Map::<Seq<u8>, SpecStats>::empty()) by {
            assert(rs.take(0) =~= Seq::<crate::model::Rec>::empty());
        }
    }
    let mut table = AggTable::new();
    let mut k: usize = 0;
    while k < nrec
        invariant
            k <= nrec,
            nrec == nf / 2,
            nf == fields@.len(),
            len == data@.len(),
            len < 0x2_0000_0000,
            well_formed(data@),
            fields@.len() == seps(data@).len(),
            rs == records_of(data@),
            nrec == num_records(data@),
            forall|j: int|
                0 <= j < fields@.len() ==> (#[trigger] fields@[j]).0 as int == field_start(
                    data@,
                    j,
                ) && fields@[j].1 as int == seps(data@)[j],
            table.wf(),
            table@ == aggregate(rs.take(k as int)),
        decreases nrec - k,
    {
        proof {
            lemma_seps_in_facts(data@, 0, data@.len() as int);
            lemma_seps_len_bound(data@);
            lemma_records_range(data@);
            lemma_aggregate_bounds(rs.take(k as int));
            assert(fields@[2 * k as int].0 as int == field_start(data@, 2 * k as int));
            assert(fields@[2 * k as int].1 as int == seps(data@)[2 * k as int]);
            assert(fields@[2 * k as int + 1].0 as int == field_start(data@, 2 * k as int + 1));
            assert(fields@[2 * k as int + 1].1 as int == seps(data@)[2 * k as int + 1]);
            assert(field_start(data@, 2 * k as int) < seps(data@)[2 * k as int]);
            assert(crate::temp::is_temp(
                data@.subrange(seps(data@)[2 * (k as int)] + 1, seps(data@)[2 * (k as int) + 1]),
            ));
        }
        let ss = fields[2 * k].0;
        let se = fields[2 * k].1;
        let ts = fields[2 * k + 1].0;
        let te = fields[2 * k + 1].1;
        let tslice = slice_subrange(data, ts, te);
        proof {
            assert(tslice@ == temp_bytes_at(data@, k as int));
        }
        let v = parse_temp(tslice);
        let kslice = slice_subrange(data, ss, se);
        proof {
            assert(kslice@ == station_at(data@, k as int));
            assert(rs[k as int] == (kslice@, v as int));
            // bounds for the observation: the running total stays under the
            // record count, which the buffer length caps
            assert(rs.take(k as int).len() == k);
            if table@.contains_key(kslice@) {
                assert(table@[kslice@].total <= k);
                assert(k < nrec);
                assert(nrec * 2 <= len);
            }
        }
        table.observe(kslice, v);
        proof {
            lemma_aggregate_push(rs.take(k as int), rs[k as int]);
            assert(rs.take(k as int).push(rs[k as int]) =~= rs.take(k as int + 1));
        }
        k = k + 1;
    }
    proof {
        assert(rs.take(nrec as int) =~= rs);
    }
    Ok(table)
}

/// Validates the whole buffer against the record grammar.
pub fn validate(data: &[u8]) -> (b: bool)
    requires
        data@.len() + 64 <= usize::MAX,
    ensures
        b == well_formed(data@),
{
    let fields = collect_fields(data);
    check_wf(data, &fields)
}

/// Where partition `i` begins: the buffer start, or the previous
/// partition's end.
pub open spec fn part_pos(parts: Seq<(usize, usize)>, i: int) -> int {
    if i == 0 {
        0
    } else {
        parts[i - 1].1 as int
    }
}

/// Splits the buffer into `n` record-aligned partitions, aggregates each
/// partition on its own, and merges the per-partition tables.
///
/// The merged table equals the single sequential pass over the whole
/// buffer, whatever the partition count.
pub fn get_map_with_workers(data: &[u8], n: usize) -> (r: Result<AggTable, RunError>)
    requires
        1 <= n,
        data@.len() < 0x2_0000_0000,
        data@.len() + 64 <= usize::MAX,
    ensures
        match r {
            Ok(t) => t.wf() && well_formed(data@) && partition_ok(data@, n as int) && t@
                == aggregate(records_of(data@)),
            Err(e) => (e == RunError::NoTerminator && !partition_ok(data@, n as int)) || (e
                == RunError::Malformed && !well_formed(data@)),
        },
{
    let len = data.len();
    let parts = match partition(data, n) {
        Err(e) => {
            return Err(e);
        },
        Ok(p) => p,
    };
    if !validate(data) {
        return Err(RunError::Malformed);
    }
    let mut table = AggTable::new();
    proof {
        assert(data@.take(0) =~= Seq::<u8>::empty());
        lemma_wf_split(data@, 0);
        assert(records_of(data@.take(0)).len() == 0) by {
            lemma_seps_len_bound(data@.take(0));
        }
        assert(aggregate(records_of(data@.take(0))) =~= Map::<Seq<u8>, SpecStats>::empty()) by {
            assert(records_of(data@.take(0)) =~= Seq::<crate::model::Rec>::empty());
        }
    }
    let mut i: usize = 0;
    while i < n
        invariant
            i <= n,
            1 <= n,
            len == data@.len(),
            len < 0x2_0000_0000,
            len + 64 <= usize::MAX,
            well_formed(data@),
            parts@.len() == n,
            parts@[0].0 == 0,
            parts@[n - 1].1 == len,
            forall|q: int| 0 <= q < n - 1 ==> (#[trigger] parts@[q]).1 == parts@[q + 1].0,
            forall|q: int| 0 <= q < n ==> (#[trigger] parts@[q]).0 <= parts@[q].1 <= len,
            forall|q: int|
                0 <= q < n - 1 ==> (#[trigger] parts@[q]).0 < parts@[q].1 && data@[parts@[q].1
                    - 1] == 10,
            table.wf(),
            table@ == aggregate(records_of(data@.take(part_pos(parts@, i as int)))),
            well_formed(data@.take(part_pos(parts@, i as int))),
            0 <= part_pos(parts@, i as int) <= len,
            part_pos(parts@, i as int) == 0 || data@[part_pos(parts@, i as int) - 1] == 10
                || part_pos(parts@, i as int) == len,
        decreases n - i,
    {
        let ps = parts[i].0;
        let pe = parts[i].1;
        let ghost pos = part_pos(parts@, i as int);
        proof {
            assert(ps as int == pos);
            assert(i < n - 1 ==> data@[pe as int - 1] == 10);
            assert(i as int == n - 1 ==> pe == len);
            lemma_wf_split(data@, pe as int);
            lemma_wf_split(data@.take(pe as int), ps as int);
            assert(data@.take(pe as int).take(ps as int) =~= data@.take(ps as int));
            assert(data@.take(pe as int).skip(ps as int) =~= data@.subrange(
                ps as int,
                pe as int,
            ));
        }
        let pslice = slice_subrange(data, ps, pe);
        let sub = parse(pslice);
        match sub {
            Err(_) => {
                proof {
                    assert(well_formed(pslice@));
                    assert(false);
                }
                return Err(RunError::Malformed);
            },
            Ok(t) => {
                let ghost r1 = records_of(data@.take(ps as int));
                let ghost r2 = records_of(pslice@);
                let ghost rboth = records_of(data@.take(pe as int));
                proof {
                    assert(rboth == r1 + r2);
                    lemma_records_range(data@.take(ps as int));
                    lemma_records_range(pslice@);
                    lemma_aggregate_bounds(r1);
                    lemma_aggregate_bounds(r2);
                    lemma_seps_len_bound(data@.take(pe as int));
                    assert(rboth.len() == num_records(data@.take(pe as int)));
                    assert(rboth.len() * 2 <= seps(data@.take(pe as int)).len() + 1);
                    assert(rboth.len() <= len);
                    assert(r1.len() + r2.len() == rboth.len());
                    assert forall|k: Seq<u8>|
                        #[trigger] table@.contains_key(k) && t@.contains_key(k) implies table@[k].total
                        + t@[k].total <= 0xFFFF_FFFFu32 && i64::MIN <= table@[k].sum + t@[k].sum
                        <= i64::MAX by {
                        let a = table@[k];
                        let b = t@[k];
                        assert(1 <= a.total <= r1.len());
                        assert(1 <= b.total <= r2.len());
                        assert(a.total + b.total <= rboth.len());
                        assert(rboth.len() < 0x1_0000_0000);
                        assert(-999 * a.total <= a.sum <= 999 * a.total);
                        assert(-999 * b.total <= b.sum <= 999 * b.total);
                        assert(999 * a.total + 999 * b.total <= 999 * 0x1_0000_0000int)
                            by (nonlinear_arith)
                            requires
                                a.total + b.total <= 0x1_0000_0000int,
                                a.total >= 0,
                                b.total >= 0,
                        ;
                    }
                }
                table.merge(t);
                proof {
                    lemma_merge_aggregate(r1, r2);
                    assert(table@ == aggregate(rboth));
                }
            },
        }
        i = i + 1;
        proof {
            assert(part_pos(parts@, i as int) == pe as int);
            assert(i < n ==> parts@[i as int].0 == pe);
        }
    }
    proof {
        assert(part_pos(parts@, n as int) == len);
        assert(data@.take(len as int) =~= data@);
    }
    Ok(table)
}

} // verus!
