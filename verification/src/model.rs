//! Mathematical model of the record layout.
//!
//! A buffer is a sequence of records `station;temperature\n`. The model
//! describes the buffer through the ascending sequence of its separator
//! positions (`;` and newline): fields are the spans between consecutive
//! separators, and records pair a station field with a temperature field.

use vstd::prelude::*;
use crate::temp::{is_temp, temp_value};

verus! {

/// A byte that ends a field: the field separator `;` or the record
/// terminator newline.
pub open spec fn is_sep(b: u8) -> bool {
    b == 59 || b == 10
}

/// Ascending positions `p` with `lo <= p < hi`, `p` in bounds, and
/// `data[p]` a separator.
pub open spec fn seps_in(data: Seq<u8>, lo: int, hi: int) -> Seq<int>
    decreases hi - lo,
{
    if hi <= lo {
        Seq::empty()
    } else if 0 <= hi - 1 && hi - 1 < data.len() && is_sep(data[hi - 1]) {
        seps_in(data, lo, hi - 1).push(hi - 1)
    } else {
        seps_in(data, lo, hi - 1)
    }
}

/// All separator positions of the buffer, ascending.
pub open spec fn seps(data: Seq<u8>) -> Seq<int> {
    seps_in(data, 0, data.len() as int)
}

/// Every index shifted by `d`.
pub open spec fn shift_idx(s: Seq<int>, d: int) -> Seq<int> {
    Seq::new(s.len(), |i: int| s[i] + d)
}

/// Elements of `seps_in` lie in range, are separators, are strictly
/// ascending, and every in-range separator position occurs.
pub proof fn lemma_seps_in_facts(data: Seq<u8>, lo: int, hi: int)
    ensures
        forall|j: int| 0 <= j < seps_in(data, lo, hi).len() ==> {
            let p = #[trigger] seps_in(data, lo, hi)[j];
            lo <= p && p < hi && 0 <= p && p < data.len() && is_sep(data[p])
        },
        forall|j1: int, j2: int|
            0 <= j1 < j2 < seps_in(data, lo, hi).len() ==> seps_in(data, lo, hi)[j1] < seps_in(
                data,
                lo,
                hi,
            )[j2],
        forall|p: int|
            lo <= p < hi && 0 <= p < data.len() && is_sep(data[p]) ==> seps_in(
                data,
                lo,
                hi,
            ).contains(p),
    decreases hi - lo,
{
    if hi <= lo {
    } else {
        lemma_seps_in_facts(data, lo, hi - 1);
        let s0 = seps_in(data, lo, hi - 1);
        let s = seps_in(data, lo, hi);
        if 0 <= hi - 1 && hi - 1 < data.len() && is_sep(data[hi - 1]) {
            assert(s == s0.push(hi - 1));
            assert forall|p: int|
                lo <= p < hi && 0 <= p < data.len() && is_sep(data[p]) implies s.contains(
                p,
            ) by {
                if p == hi - 1 {
                    assert(s[s.len() - 1] == p);
                } else {
                    assert(s0.contains(p));
                    let j = choose|j: int| 0 <= j < s0.len() && s0[j] == p;
                    assert(s[j] == p);
                }
            }
        } else {
            assert forall|p: int|
                lo <= p < hi && 0 <= p < data.len() && is_sep(data[p]) implies s.contains(
                p,
            ) by {
                assert(s0.contains(p));
            }
        }
    }
}

/// `seps_in` splits at any midpoint.
pub proof fn lemma_seps_in_concat(data: Seq<u8>, lo: int, mid: int, hi: int)
    requires
        lo <= mid <= hi,
    ensures
        seps_in(data, lo, hi) == seps_in(data, lo, mid) + seps_in(data, mid, hi),
    decreases hi - mid,
{
    if hi == mid {
        assert(seps_in(data, mid, hi) =~= Seq::<int>::empty());
        assert(seps_in(data, lo, hi) =~= seps_in(data, lo, mid) + seps_in(data, mid, hi));
    } else {
        lemma_seps_in_concat(data, lo, mid, hi - 1);
        if 0 <= hi - 1 && hi - 1 < data.len() && is_sep(data[hi - 1]) {
            assert(seps_in(data, lo, hi) =~= seps_in(data, lo, mid) + seps_in(data, mid, hi));
        } else {
            assert(seps_in(data, lo, hi) =~= seps_in(data, lo, mid) + seps_in(data, mid, hi));
        }
    }
}

/// Positions past the end of the buffer contribute nothing.
pub proof fn lemma_seps_in_clamp(data: Seq<u8>, lo: int, hi: int)
    requires
        lo <= data.len() <= hi,
    ensures
        seps_in(data, lo, hi) == seps_in(data, lo, data.len() as int),
    decreases hi - data.len(),
{
    if hi > data.len() {
        lemma_seps_in_clamp(data, lo, hi - 1);
    }
}

/// Separator positions below `p` are unchanged by truncating at `p`.
pub proof fn lemma_seps_in_take(data: Seq<u8>, p: int, lo: int, hi: int)
    requires
        hi <= p <= data.len(),
    ensures
        seps_in(data.take(p), lo, hi) == seps_in(data, lo, hi),
    decreases hi - lo,
{
    if hi > lo {
        lemma_seps_in_take(data, p, lo, hi - 1);
    }
}

/// Separator positions of a suffix are the shifted positions of the
/// original buffer.
pub proof fn lemma_seps_in_skip(data: Seq<u8>, p: int, lo: int, hi: int)
    requires
        0 <= p <= data.len(),
        0 <= lo,
    ensures
        seps_in(data.skip(p), lo, hi) == shift_idx(seps_in(data, p + lo, p + hi), -p),
    decreases hi - lo,
{
    if hi <= lo {
        assert(seps_in(data.skip(p), lo, hi) =~= shift_idx(seps_in(data, p + lo, p + hi), -p));
    } else {
        lemma_seps_in_skip(data, p, lo, hi - 1);
        if 0 <= hi - 1 && hi - 1 < data.skip(p).len() && is_sep(data.skip(p)[hi - 1]) {
            assert(data.skip(p)[hi - 1] == data[p + hi - 1]);
            assert(seps_in(data.skip(p), lo, hi) =~= shift_idx(
                seps_in(data, p + lo, p + hi),
                -p,
            ));
        } else {
            assert(seps_in(data.skip(p), lo, hi) =~= shift_idx(
                seps_in(data, p + lo, p + hi),
                -p,
            ));
        }
    }
}

/// Where field `j` begins: after the previous separator, or at the
/// buffer's start for the first field.
pub open spec fn field_start(data: Seq<u8>, j: int) -> int {
    if j == 0 {
        0
    } else {
        seps(data)[j - 1] + 1
    }
}

/// The bytes of field `j`.
pub open spec fn field_at(data: Seq<u8>, j: int) -> Seq<u8> {
    data.subrange(field_start(data, j), seps(data)[j])
}

/// The buffer is a sequence of well-formed records: separators alternate
/// `;` and newline, the buffer ends on a newline, stations are nonempty,
/// and every temperature span matches the grammar.
pub open spec fn well_formed(data: Seq<u8>) -> bool {
    let s = seps(data);
    &&& s.len() % 2 == 0
    &&& (data.len() > 0 ==> s.len() > 0 && s[s.len() - 1] == data.len() - 1)
    &&& (forall|k: int| 0 <= k < s.len() / 2 ==> data[#[trigger] s[2 * k]] == 59)
    &&& (forall|k: int| 0 <= k < s.len() / 2 ==> data[#[trigger] s[2 * k + 1]] == 10)
    &&& (forall|k: int| 0 <= k < s.len() / 2 ==> field_start(data, 2 * k) < #[trigger] s[2 * k])
    &&& (forall|k: int|
        0 <= k < s.len() / 2 ==> is_temp(data.subrange(#[trigger] s[2 * k] + 1, s[2 * k + 1])))
}

/// How many records the buffer holds.
pub open spec fn num_records(data: Seq<u8>) -> int {
    (seps(data).len() / 2) as int
}

/// The station name of record `k`.
pub open spec fn station_at(data: Seq<u8>, k: int) -> Seq<u8> {
    field_at(data, 2 * k)
}

/// The temperature bytes of record `k`.
pub open spec fn temp_bytes_at(data: Seq<u8>, k: int) -> Seq<u8> {
    data.subrange(seps(data)[2 * k] + 1, seps(data)[2 * k + 1])
}

/// One observation: a station name and a parsed temperature in tenths.
pub type Rec = (Seq<u8>, int);

/// Record `k` of the buffer.
pub open spec fn record_at(data: Seq<u8>, k: int) -> Rec {
    (station_at(data, k), temp_value(temp_bytes_at(data, k)))
}

/// All records of the buffer, in buffer order.
pub open spec fn records_of(data: Seq<u8>) -> Seq<Rec> {
    Seq::new(num_records(data) as nat, |k: int| record_at(data, k))
}

/// Separator `j` sits at position `j` or later.
pub proof fn lemma_seps_min_index(data: Seq<u8>)
    ensures
        forall|j: int| 0 <= j < seps(data).len() ==> #[trigger] seps(data)[j] >= j,
{
    lemma_seps_in_facts(data, 0, data.len() as int);
    let s = seps(data);
    assert forall|j: int| 0 <= j < s.len() implies s[j] >= j by {
        lemma_ascending_min(s, j);
    }
}

/// There are at most as many separators as bytes.
pub proof fn lemma_seps_len_bound(data: Seq<u8>)
    ensures
        seps(data).len() <= data.len(),
{
    lemma_seps_in_facts(data, 0, data.len() as int);
    lemma_seps_min_index(data);
    let s = seps(data);
    if s.len() > data.len() {
        assert(s[s.len() - 1] >= s.len() - 1);
        assert(s[s.len() - 1] < data.len());
    }
}

/// In a well-formed buffer every record's temperature is within a
/// thousand tenths either way.
pub proof fn lemma_records_range(data: Seq<u8>)
    requires
        well_formed(data),
    ensures
        forall|i: int|
            0 <= i < records_of(data).len() ==> -999 <= (#[trigger] records_of(data)[i]).1
                <= 999,
{
    assert forall|i: int| 0 <= i < records_of(data).len() implies -999 <= (
    #[trigger] records_of(data)[i]).1 <= 999 by {
        assert(records_of(data)[i] == record_at(data, i));
        assert(is_temp(data.subrange(seps(data)[2 * i] + 1, seps(data)[2 * i + 1])));
        crate::temp::lemma_temp_value_range(temp_bytes_at(data, i));
    }
}

/// Facts about the separator decomposition at a record boundary `p`.
proof fn lemma_split_seps(data: Seq<u8>, p: int)
    requires
        well_formed(data),
        0 <= p <= data.len(),
        p == 0 || p == data.len() || data[p - 1] == 10,
    ensures
        seps(data.take(p)) == seps_in(data, 0, p),
        seps(data.skip(p)) == shift_idx(seps_in(data, p, data.len() as int), -p),
        seps(data) == seps_in(data, 0, p) + seps_in(data, p, data.len() as int),
        seps_in(data, 0, p).len() % 2 == 0,
        p > 0 ==> seps_in(data, 0, p).len() > 0 && seps_in(data, 0, p)[seps_in(
            data,
            0,
            p,
        ).len() - 1] == p - 1,
        p == 0 ==> seps_in(data, 0, p).len() == 0,
{
    let len = data.len() as int;
    let s = seps(data);
    let sl = seps_in(data, 0, p);
    let sr = seps_in(data, p, len);
    lemma_seps_in_concat(data, 0, p, len);
    lemma_seps_in_take(data, p, 0, p);
    lemma_seps_in_skip(data, p, 0, len - p);
    lemma_seps_in_facts(data, 0, p);
    lemma_seps_in_facts(data, 0, len);
    let m = sl.len() as int;
    assert(forall|j: int| 0 <= j < m ==> s[j] == #[trigger] sl[j]);
    if p > 0 {
        if p == len {
            assert(s.len() > 0 && s[s.len() - 1] == len - 1);
            let j_last = s.len() - 1;
            if j_last % 2 == 0 {
                assert(j_last == 2 * (j_last / 2));
                assert(data[s[2 * (j_last / 2)]] == 59);
                assert(false);
            }
            assert(j_last == 2 * (j_last / 2) + 1);
            assert(data[s[2 * (j_last / 2) + 1]] == 10);
            assert(data[p - 1] == 10);
        }
        assert(sl.contains(p - 1));
        let jj = choose|jj: int| 0 <= jj < m && sl[jj] == p - 1;
        assert(forall|j: int| 0 <= j < m ==> #[trigger] sl[j] <= p - 1);
        assert(sl[m - 1] >= sl[jj] || jj == m - 1);
        assert(sl[m - 1] == p - 1);
        if (m - 1) % 2 == 0 {
            assert(s[m - 1] == p - 1);
            assert(data[s[2 * ((m - 1) / 2)]] == 59);
            assert(false);
        }
        assert(m % 2 == 0);
    }
}

/// The prefix up to a record boundary is itself well-formed, with the
/// whole buffer's leading records.
proof fn lemma_split_left(data: Seq<u8>, p: int)
    requires
        well_formed(data),
        0 <= p <= data.len(),
        p == 0 || p == data.len() || data[p - 1] == 10,
    ensures
        well_formed(data.take(p)),
        num_records(data.take(p)) <= num_records(data),
        forall|k: int|
            0 <= k < num_records(data.take(p)) ==> #[trigger] record_at(data.take(p), k)
                == record_at(data, k),
{
    let len = data.len() as int;
    let s = seps(data);
    let sl = seps_in(data, 0, p);
    let tp = data.take(p);
    lemma_split_seps(data, p);
    lemma_seps_in_facts(data, 0, p);
    lemma_seps_in_facts(data, 0, len);
    let m = sl.len() as int;
    assert(forall|j: int| 0 <= j < m ==> s[j] == #[trigger] sl[j]);
    assert forall|k: int| 0 <= k < m / 2 implies tp[#[trigger] seps(tp)[2 * k]] == 59 && tp[seps(
        tp,
    )[2 * k + 1]] == 10 && field_start(tp, 2 * k) < seps(tp)[2 * k] && is_temp(
        tp.subrange(seps(tp)[2 * k] + 1, seps(tp)[2 * k + 1]),
    ) && record_at(tp, k) == record_at(data, k) by {
        assert(sl[2 * k] == s[2 * k]);
        assert(sl[2 * k + 1] == s[2 * k + 1]);
        assert(data[s[2 * k]] == 59);
        assert(data[s[2 * k + 1]] == 10);
        assert(field_start(data, 2 * k) < s[2 * k]);
        assert(is_temp(data.subrange(s[2 * k] + 1, s[2 * k + 1])));
        if k > 0 {
            assert(sl[2 * k - 1] == s[2 * k - 1]);
        }
        assert(tp.subrange(sl[2 * k] + 1, sl[2 * k + 1]) =~= data.subrange(
            s[2 * k] + 1,
            s[2 * k + 1],
        ));
        assert(tp.subrange(field_start(tp, 2 * k), seps(tp)[2 * k]) =~= data.subrange(
            field_start(data, 2 * k),
            s[2 * k],
        ));
    }
    assert(well_formed(tp));
}

/// The suffix from a record boundary on is itself well-formed, with the
/// whole buffer's trailing records.
#[verifier::rlimit(100)]
#[verifier::spinoff_prover]
proof fn lemma_split_right(data: Seq<u8>, p: int)
    requires
        well_formed(data),
        0 <= p <= data.len(),
        p == 0 || p == data.len() || data[p - 1] == 10,
    ensures
        well_formed(data.skip(p)),
        num_records(data) == num_records(data.take(p)) + num_records(data.skip(p)),
        forall|k: int|
            0 <= k < num_records(data.skip(p)) ==> #[trigger] record_at(data.skip(p), k)
                == record_at(data, num_records(data.take(p)) + k),
{
    let len = data.len() as int;
    let s = seps(data);
    let sl = seps_in(data, 0, p);
    let sr = seps_in(data, p, len);
    let sk = data.skip(p);
    lemma_split_seps(data, p);
    lemma_seps_in_facts(data, 0, p);
    lemma_seps_in_facts(data, p, len);
    lemma_seps_in_facts(data, 0, len);
    let m = sl.len() as int;
    assert(forall|j: int| 0 <= j < m ==> s[j] == #[trigger] sl[j]);
    assert(forall|j: int| 0 <= j < sr.len() ==> s[m + j] == #[trigger] sr[j]);
    assert(seps(sk).len() == sr.len());
    assert(sr.len() % 2 == 0);
    if len - p > 0 {
        assert(s[s.len() - 1] == len - 1);
        if s.len() == m {
            assert(sl[m - 1] == len - 1 && sl[m - 1] <= p - 1);
            assert(false);
        }
        assert(sr[sr.len() - 1] == s[s.len() - 1]);
        assert(seps(sk)[sr.len() - 1] == len - 1 - p);
    }
    assert forall|k: int| 0 <= k < sr.len() / 2 implies sk[#[trigger] seps(sk)[2 * k]] == 59
        && sk[seps(sk)[2 * k + 1]] == 10 && field_start(sk, 2 * k) < seps(sk)[2 * k] && is_temp(
        sk.subrange(seps(sk)[2 * k] + 1, seps(sk)[2 * k + 1]),
    ) && record_at(sk, k) == record_at(data, m / 2 + k) by {
        let kk = m / 2 + k;
        assert(seps(sk)[2 * k] == sr[2 * k] - p);
        assert(seps(sk)[2 * k + 1] == sr[2 * k + 1] - p);
        assert(sr[2 * k] == s[m + 2 * k]);
        assert(sr[2 * k + 1] == s[m + 2 * k + 1]);
        assert(m + 2 * k == 2 * kk);
        assert(m + 2 * k + 1 == 2 * kk + 1);
        assert(data[s[2 * kk]] == 59);
        assert(data[s[2 * kk + 1]] == 10);
        assert(sk[sr[2 * k] - p] == data[sr[2 * k]]);
        assert(sk[sr[2 * k + 1] - p] == data[sr[2 * k + 1]]);
        assert(field_start(data, 2 * kk) < s[2 * kk]);
        if k == 0 {
            if m == 0 {
                assert(field_start(data, 0) == 0);
                assert(p == 0);
            } else {
                assert(s[m - 1] == sl[m - 1]);
                assert(field_start(data, m) == p);
            }
            assert(field_start(sk, 0) == 0);
            assert(field_start(sk, 0) == field_start(data, 2 * kk) - p);
        } else {
            assert(seps(sk)[2 * k - 1] == sr[2 * k - 1] - p);
            assert(sr[2 * k - 1] == s[m + 2 * k - 1]);
            assert(field_start(sk, 2 * k) == s[m + 2 * k - 1] + 1 - p);
            assert(field_start(sk, 2 * k) == field_start(data, 2 * kk) - p);
        }
        assert(is_temp(data.subrange(s[2 * kk] + 1, s[2 * kk + 1])));
        assert(sk.subrange(seps(sk)[2 * k] + 1, seps(sk)[2 * k + 1]) =~= data.subrange(
            s[2 * kk] + 1,
            s[2 * kk + 1],
        ));
        assert(sk.subrange(field_start(sk, 2 * k), seps(sk)[2 * k]) =~= data.subrange(
            field_start(data, 2 * kk),
            s[2 * kk],
        ));
    }
    if sk.len() > 0 {
        assert(seps(sk).len() > 0);
        assert(seps(sk)[seps(sk).len() - 1] == sk.len() - 1);
    }
    assert(seps(sk).len() % 2 == 0);
    assert(forall|k: int|
        0 <= k < seps(sk).len() / 2 ==> sk[#[trigger] seps(sk)[2 * k]] == 59);
    assert forall|k: int|
        0 <= k < seps(sk).len() / 2 implies sk[#[trigger] seps(sk)[2 * k + 1]] == 10 by {
        assert(sk[seps(sk)[2 * k]] == 59);
    }
    assert(forall|k: int|
        0 <= k < seps(sk).len() / 2 ==> field_start(sk, 2 * k) < #[trigger] seps(sk)[2 * k]);
    assert forall|k: int|
        0 <= k < seps(sk).len() / 2 implies is_temp(
        sk.subrange(#[trigger] seps(sk)[2 * k] + 1, seps(sk)[2 * k + 1]),
    ) by {
        assert(sk[seps(sk)[2 * k]] == 59);
    }
    assert(well_formed(sk));
}

/// Splitting a well-formed buffer at a record boundary (the start, the
/// end, or just after a newline) leaves two well-formed parts whose
/// records concatenate to the whole buffer's records.
pub proof fn lemma_wf_split(data: Seq<u8>, p: int)
    requires
        well_formed(data),
        0 <= p <= data.len(),
        p == 0 || p == data.len() || data[p - 1] == 10,
    ensures
        well_formed(data.take(p)),
        well_formed(data.skip(p)),
        records_of(data) == records_of(data.take(p)) + records_of(data.skip(p)),
{
    lemma_split_left(data, p);
    lemma_split_right(data, p);
    assert(records_of(data) =~= records_of(data.take(p)) + records_of(data.skip(p)));
}

proof fn lemma_ascending_min(s: Seq<int>, j: int)
    requires
        0 <= j < s.len(),
        forall|j1: int, j2: int| 0 <= j1 < j2 < s.len() ==> s[j1] < s[j2],
        forall|j1: int| 0 <= j1 < s.len() ==> #[trigger] s[j1] >= 0,
    ensures
        s[j] >= j,
    decreases j,
{
    if j > 0 {
        lemma_ascending_min(s, j - 1);
    }
}

} // verus!
