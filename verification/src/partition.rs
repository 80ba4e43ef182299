//! Partitioner: divides the buffer into record-aligned worker ranges.
//!
//! Split points start at multiples of `len / n` and snap backward to the
//! nearest record terminator, so no partition splits a record. The last
//! partition absorbs the remainder. Finding no terminator to snap to is
//! a fatal input-shape violation.

use vstd::prelude::*;
use vstd::arithmetic::div_mod::lemma_fundamental_div_mod;
use crate::pipeline::RunError;

verus! {

/// Index of the last newline in `data[start..end)`, or `-1` when the
/// range holds none.
pub open spec fn spec_last_nl(data: Seq<u8>, start: int, end: int) -> int
    decreases end - start,
{
    if end <= start {
        -1
    } else if data[end - 1] == 10 {
        end - 1
    } else {
        spec_last_nl(data, start, end - 1)
    }
}

/// What `spec_last_nl` means: the newline found is the last one in the
/// range, and a miss means the range holds none.
pub proof fn lemma_last_nl_char(data: Seq<u8>, start: int, end: int)
    requires
        0 <= start <= end <= data.len(),
    ensures
        spec_last_nl(data, start, end) == -1 ==> forall|j: int|
            start <= j < end ==> data[j] != 10,
        spec_last_nl(data, start, end) >= 0 ==> {
            let i = spec_last_nl(data, start, end);
            start <= i < end && data[i] == 10 && forall|j: int| i < j < end ==> data[j] != 10
        },
    decreases end - start,
{
    if end > start {
        lemma_last_nl_char(data, start, end - 1);
    }
}

/// Finds the last newline in `data[start..end)`.
pub fn find_last_newline(data: &[u8], start: usize, end: usize) -> (r: Option<usize>)
    requires
        start <= end,
        end <= data@.len(),
    ensures
        match r {
            Some(i) => start <= i < end && data@[i as int] == 10 && spec_last_nl(
                data@,
                start as int,
                end as int,
            ) == i,
            None => spec_last_nl(data@, start as int, end as int) == -1,
        },
{
    let mut j = end;
    while j > start
        invariant
            start <= j <= end,
            end <= data@.len(),
            spec_last_nl(data@, start as int, end as int) == spec_last_nl(
                data@,
                start as int,
                j as int,
            ),
        decreases j,
    {
        if data[j - 1] == 10 {
            return Some(j - 1);
        }
        j = j - 1;
    }
    None
}

/// Start of partition `i` of `n`, following the snap-backward rule, or
/// `-1` when some earlier split point found no terminator.
pub open spec fn spec_bound(data: Seq<u8>, n: int, i: int) -> int
    decreases i,
{
    if i <= 0 {
        0
    } else {
        let prev = spec_bound(data, n, i - 1);
        if prev < 0 {
            -1
        } else {
            let nl = spec_last_nl(data, prev, i * (data.len() as int / n));
            if nl < 0 {
                -1
            } else {
                nl + 1
            }
        }
    }
}

/// Whether every split point of an `n`-way partition finds a terminator.
pub open spec fn partition_ok(data: Seq<u8>, n: int) -> bool {
    spec_bound(data, n, n - 1) >= 0
}

proof fn lemma_bound_fail(data: Seq<u8>, n: int, i: int, j: int)
    requires
        0 <= i <= j,
        spec_bound(data, n, i) == -1,
    ensures
        spec_bound(data, n, j) == -1,
    decreases j - i,
{
    if j > i {
        lemma_bound_fail(data, n, i, j - 1);
    }
}

/// Splits the buffer into `n` contiguous record-aligned partitions.
///
/// The partitions are disjoint, cover the buffer exactly, and each one
/// before the last ends immediately after a record terminator; the last
/// runs to the end of the buffer.
pub fn partition(data: &[u8], n: usize) -> (r: Result<Vec<(usize, usize)>, RunError>)
    requires
        1 <= n,
    ensures
        match r {
            Ok(parts) => partition_ok(data@, n as int) && parts@.len() == n && parts@[0].0 == 0
                && parts@[n - 1].1 == data@.len() && (forall|i: int|
                0 <= i < n ==> (#[trigger] parts@[i]).0 as int == spec_bound(data@, n as int, i))
                && (forall|i: int| 0 <= i < n - 1 ==> (#[trigger] parts@[i]).1 == parts@[i + 1].0)
                && (forall|i: int|
                0 <= i < n ==> (#[trigger] parts@[i]).0 <= parts@[i].1 <= data@.len()) && (
                forall|i: int|
                0 <= i < n - 1 ==> (#[trigger] parts@[i]).0 < parts@[i].1 && data@[parts@[i].1
                    - 1] == 10),
            Err(e) => e == RunError::NoTerminator && !partition_ok(data@, n as int),
        },
{
    let len = data.len();
    let block = len / n;
    proof {
        lemma_fundamental_div_mod(len as int, n as int);
    }
    let mut parts: Vec<(usize, usize)> = Vec::new();
    let mut start: usize = 0;
    let mut i: usize = 1;
    while i < n
        invariant
            1 <= i <= n,
            len == data@.len(),
            block == len as int / n as int,
            parts@.len() == i - 1,
            start as int == spec_bound(data@, n as int, i - 1),
            start <= (i - 1) * block,
            (i - 1) * block <= len,
            forall|q: int|
                0 <= q < i - 1 ==> (#[trigger] parts@[q]).0 as int == spec_bound(
                    data@,
                    n as int,
                    q,
                ),
            forall|q: int|
                0 <= q < i - 1 ==> (#[trigger] parts@[q]).1 as int == spec_bound(
                    data@,
                    n as int,
                    q + 1,
                ),
            forall|q: int|
                0 <= q < i - 1 ==> (#[trigger] parts@[q]).0 < parts@[q].1 && parts@[q].1 <= len
                    && data@[parts@[q].1 - 1] == 10,
        decreases n - i,
    {
        proof {
            assert((i as int - 1) * block + block == i as int * block) by (nonlinear_arith);
            assert(i as int * block <= n as int * block) by (nonlinear_arith)
                requires
                    i as int <= n as int,
                    block >= 0,
            ;
            assert(n as int * block <= len) by {
                lemma_fundamental_div_mod(len as int, n as int);
            }
        }
        let approx = i * block;
        match find_last_newline(data, start, approx) {
            None => {
                proof {
                    assert(spec_bound(data@, n as int, i as int) == -1);
                    lemma_bound_fail(data@, n as int, i as int, n as int - 1);
                }
                return Err(RunError::NoTerminator);
            },
            Some(nl) => {
                let b = nl + 1;
                parts.push((start, b));
                proof {
                    assert(spec_bound(data@, n as int, i as int) == nl + 1);
                }
                start = b;
            },
        }
        i = i + 1;
    }
    parts.push((start, len));
    proof {
        assert(start as int == spec_bound(data@, n as int, n as int - 1));
        assert(partition_ok(data@, n as int));
        assert(parts@[n as int - 1].1 == len);
        assert(parts@[0].0 as int == spec_bound(data@, n as int, 0));
    }
    Ok(parts)
}

} // verus!
