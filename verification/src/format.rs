//! Formatter: sorted, human-readable emission of the merged table.
//!
//! Stations are ordered by byte-lexicographic comparison of their names.
//! Every value is rendered in tenths with exactly one fractional digit;
//! the mean is the total sum over the count, rounded half to even, and
//! is computed only at emission time, in integers.

use vstd::prelude::*;
use vstd::arithmetic::div_mod::{lemma_fundamental_div_mod, lemma_fundamental_div_mod_converse};
use vstd::multiset::Multiset;
use crate::stats::SpecStats;
use crate::table::{stats_of, AggTable, Weather};

verus! {

/// Byte-lexicographic strict order.
pub open spec fn lex_lt(a: Seq<u8>, b: Seq<u8>) -> bool
    decreases b.len(),
{
    if b.len() == 0 {
        false
    } else if a.len() == 0 {
        true
    } else if a[0] < b[0] {
        true
    } else if a[0] > b[0] {
        false
    } else {
        lex_lt(a.skip(1), b.skip(1))
    }
}

/// Byte-lexicographic order, equality allowed.
pub open spec fn lex_le(a: Seq<u8>, b: Seq<u8>) -> bool {
    lex_lt(a, b) || a == b
}

/// The lexicographic order is total.
pub proof fn lemma_lex_total(a: Seq<u8>, b: Seq<u8>)
    ensures
        lex_lt(a, b) || lex_lt(b, a) || a == b,
    decreases a.len(),
{
    if a.len() > 0 && b.len() > 0 && a[0] == b[0] {
        lemma_lex_total(a.skip(1), b.skip(1));
        if a.skip(1) == b.skip(1) {
            assert forall|i: int| 0 <= i < a.len() implies a[i] == b[i] by {
                if i > 0 {
                    assert(a.skip(1)[i - 1] == b.skip(1)[i - 1]);
                }
            }
            assert(a =~= b);
        }
    }
}

/// The lexicographic order is transitive.
pub proof fn lemma_lex_trans(a: Seq<u8>, b: Seq<u8>, c: Seq<u8>)
    requires
        lex_le(a, b),
        lex_le(b, c),
    ensures
        lex_le(a, c),
    decreases a.len() + b.len() + c.len(),
{
    if a == b || b == c {
    } else if a.len() > 0 && b.len() > 0 && c.len() > 0 && a[0] == b[0] && b[0] == c[0] {
        lemma_lex_trans(a.skip(1), b.skip(1), c.skip(1));
        if a.skip(1) == c.skip(1) && a[0] == c[0] {
            assert forall|i: int| 0 <= i < a.len() implies a[i] == c[i] by {
                if i > 0 {
                    assert(a.skip(1)[i - 1] == c.skip(1)[i - 1]);
                }
            }
            assert(a =~= c);
        }
    }
}

/// Compares two names in byte-lexicographic order.
pub fn lex_less(a: &Vec<u8>, b: &Vec<u8>) -> (r: bool)
    ensures
        r == lex_lt(a@, b@),
{
    let na = a.len();
    let nb = b.len();
    let n = if na < nb {
        na
    } else {
        nb
    };
    let mut i: usize = 0;
    proof {
        assert(a@.skip(0) =~= a@);
        assert(b@.skip(0) =~= b@);
    }
    while i < n
        invariant
            i <= n,
            na == a@.len(),
            nb == b@.len(),
            n == if na < nb {
                na
            } else {
                nb
            },
            forall|j: int| 0 <= j < i ==> a@[j] == b@[j],
            lex_lt(a@, b@) == lex_lt(a@.skip(i as int), b@.skip(i as int)),
        decreases n - i,
    {
        proof {
            assert(a@.skip(i as int)[0] == a@[i as int]);
            assert(b@.skip(i as int)[0] == b@[i as int]);
            assert(a@.skip(i as int).skip(1) =~= a@.skip(i as int + 1));
            assert(b@.skip(i as int).skip(1) =~= b@.skip(i as int + 1));
        }
        if a[i] < b[i] {
            return true;
        }
        if a[i] > b[i] {
            return false;
        }
        i = i + 1;
    }
    proof {
        if na < nb {
            assert(a@.skip(i as int).len() == na - i);
            assert(b@.skip(i as int).len() > 0);
        } else {
            assert(b@.skip(i as int).len() == nb - n);
        }
    }
    na < nb
}

/// Mean of a sum over a count, in tenths, rounded half to even.
pub open spec fn spec_mean_tenths(sum: int, total: int) -> int {
    let q = sum / total;
    let r = sum % total;
    if 2 * r < total {
        q
    } else if 2 * r > total {
        q + 1
    } else if q % 2 == 0 {
        q
    } else {
        q + 1
    }
}

/// Computes the rounded mean in integers only.
pub fn mean_tenths(sum: i64, total: u32) -> (m: i64)
    requires
        1 <= total,
        -0x4_0000_0000_0000 <= sum <= 0x4_0000_0000_0000,
    ensures
        m == spec_mean_tenths(sum as int, total as int),
        -0x4_0000_0000_0001 <= m <= 0x4_0000_0000_0001,
{
    let t = total as u64;
    let (q, r): (i64, u64) = if sum >= 0 {
        let a = sum as u64;
        proof {
            lemma_fundamental_div_mod(a as int, t as int);
            assert(a as int / t as int <= a as int) by (nonlinear_arith)
                requires
                    t as int >= 1,
                    a as int >= 0,
            ;
        }
        ((a / t) as i64, a % t)
    } else {
        let a = (-sum) as u64;
        let aq = a / t;
        let ar = a % t;
        proof {
            assert(a as int / t as int <= a as int) by (nonlinear_arith)
                requires
                    t as int >= 1,
                    a as int >= 0,
            ;
            lemma_fundamental_div_mod(a as int, t as int);
            assert(t as int * (a as int / t as int) == (a as int / t as int) * (t as int))
                by (nonlinear_arith);
            assert(a as int == aq as int * t as int + ar as int);
            if ar == 0 {
                assert((-(aq as int)) * (t as int) == -(aq as int * t as int))
                    by (nonlinear_arith);
                lemma_fundamental_div_mod_converse(
                    sum as int,
                    t as int,
                    -(aq as int),
                    0,
                );
            } else {
                assert((-(aq as int) - 1) * (t as int) == -(aq as int * t as int) - t as int)
                    by (nonlinear_arith);
                lemma_fundamental_div_mod_converse(
                    sum as int,
                    t as int,
                    -(aq as int) - 1,
                    t as int - ar as int,
                );
            }
        }
        if ar == 0 {
            (-(aq as i64), 0)
        } else {
            (-(aq as i64) - 1, t - ar)
        }
    };
    proof {
        assert(q == sum as int / total as int);
        assert(r == sum as int % total as int);
    }
    if 2 * r < t {
        q
    } else if 2 * r > t {
        q + 1
    } else {
        if q % 2 == 0 {
            q
        } else {
            q + 1
        }
    }
}

/// Decimal digits of a nonnegative value, most significant first.
pub open spec fn dec_digits(n: int) -> Seq<u8>
    decreases n,
{
    if n <= 9 {
        seq![(48 + if n < 0 { 0 } else { n }) as u8]
    } else {
        dec_digits(n / 10).push((48 + n % 10) as u8)
    }
}

/// Appends the decimal digits of `n`.
fn push_digits(n: u64, out: &mut Vec<u8>)
    ensures
        final(out)@ == old(out)@ + dec_digits(n as int),
    decreases n,
{
    if n <= 9 {
        out.push(48 + n as u8);
        proof {
            assert(final(out)@ =~= old(out)@ + dec_digits(n as int));
        }
    } else {
        push_digits(n / 10, out);
        out.push(48 + (n % 10) as u8);
        proof {
            assert(final(out)@ =~= old(out)@ + dec_digits(n as int));
        }
    }
}

/// A value in tenths rendered with a sign, the integer part, a dot, and
/// exactly one fractional digit.
pub open spec fn spec_render_tenths(v: int) -> Seq<u8> {
    let a = if v < 0 {
        -v
    } else {
        v
    };
    let sign: Seq<u8> = if v < 0 {
        seq![45u8]
    } else {
        Seq::empty()
    };
    sign + dec_digits(a / 10) + seq![46u8, (48 + a % 10) as u8]
}

/// Appends a value in tenths in the output grammar.
fn render_tenths(v: i64, out: &mut Vec<u8>)
    requires
        -0x8_0000_0000_0000 <= v <= 0x8_0000_0000_0000,
    ensures
        final(out)@ == old(out)@ + spec_render_tenths(v as int),
{
    let a: u64 = if v < 0 {
        out.push(45);
        (-v) as u64
    } else {
        v as u64
    };
    push_digits(a / 10, out);
    out.push(46);
    out.push(48 + (a % 10) as u8);
    proof {
        assert(final(out)@ =~= old(out)@ + spec_render_tenths(v as int));
    }
}

/// One summary line's data: name, minimum, mean, maximum, in tenths.
pub type SummaryEntry = (Seq<u8>, int, int, int);

/// Bytes of one rendered entry: `name=min/mean/max`.
pub open spec fn spec_entry_bytes(e: SummaryEntry) -> Seq<u8> {
    e.0 + seq![61u8] + spec_render_tenths(e.1) + seq![47u8] + spec_render_tenths(e.2)
        + seq![47u8] + spec_render_tenths(e.3)
}

/// Bytes of the first `n` entries joined by a comma and a space.
pub open spec fn spec_entries_bytes(es: Seq<SummaryEntry>, n: int) -> Seq<u8>
    decreases n,
{
    if n <= 0 {
        Seq::empty()
    } else if n == 1 {
        spec_entry_bytes(es[0])
    } else {
        spec_entries_bytes(es, n - 1) + seq![44u8, 32u8] + spec_entry_bytes(es[n - 1])
    }
}

/// The whole output: entries wrapped in braces, then a newline.
pub open spec fn spec_format(es: Seq<SummaryEntry>) -> Seq<u8> {
    seq![123u8] + spec_entries_bytes(es, es.len() as int) + seq![125u8, 10u8]
}

/// The summary data of a sequence of (station, statistics) pairs.
pub open spec fn summary_of_pairs(ps: Seq<(Vec<u8>, Weather)>) -> Seq<
    SummaryEntry,
> {
    Seq::new(
        ps.len(),
        |i: int|
            (
                ps[i].0@,
                ps[i].1.min as int,
                spec_mean_tenths(ps[i].1.sum as int, ps[i].1.total as int),
                ps[i].1.max as int,
            ),
    )
}

/// Sorts (station, statistics) pairs by station name.
pub fn sort_pairs(v: Vec<(Vec<u8>, Weather)>) -> (r: Vec<
    (Vec<u8>, Weather),
>)
    ensures
        r@.len() == v@.len(),
        forall|i: int, j: int| 0 <= i < j < r@.len() ==> lex_le(r@[i].0@, r@[j].0@),
        r@.to_multiset() == v@.to_multiset(),
{
    broadcast use vstd::seq_lib::group_to_multiset_ensures;

    let mut src = v;
    let mut out: Vec<(Vec<u8>, Weather)> = Vec::new();
    proof {
        assert(out@.to_multiset().add(src@.to_multiset()) =~= v@.to_multiset());
    }
    while src.len() > 0
        invariant
            out@.len() + src@.len() == v@.len(),
            forall|i: int, j: int| 0 <= i < j < out@.len() ==> lex_le(out@[i].0@, out@[j].0@),
            forall|i: int, j: int|
                0 <= i < out@.len() && 0 <= j < src@.len() ==> lex_le(
                    (#[trigger] out@[i]).0@,
                    (#[trigger] src@[j]).0@,
                ),
            out@.to_multiset().add(src@.to_multiset()) == v@.to_multiset(),
        decreases src@.len(),
    {
        let n = src.len();
        let mut m: usize = 0;
        let mut i: usize = 1;
        while i < n
            invariant
                1 <= i <= n,
                m < i,
                n == src@.len(),
                forall|j: int| 0 <= j < i ==> lex_le(src@[m as int].0@, (#[trigger] src@[j]).0@),
            decreases n - i,
        {
            let ghost m_old = m as int;
            if lex_less(&src[i].0, &src[m].0) {
                m = i;
            }
            proof {
                lemma_lex_total(src@[i as int].0@, src@[m_old].0@);
                assert forall|j: int| 0 <= j < i + 1 implies lex_le(
                    src@[m as int].0@,
                    (#[trigger] src@[j]).0@,
                ) by {
                    if j < i && m as int != m_old {
                        lemma_lex_trans(src@[m as int].0@, src@[m_old].0@, src@[j].0@);
                    }
                }
            }
            i = i + 1;
        }
        let ghost src_old = src@;
        let ghost out_old = out@;
        let e = src.remove(m);
        out.push(e);
        proof {
            broadcast use vstd::seq_lib::group_to_multiset_ensures;

            assert(src_old[m as int] == e);
            assert(src_old.contains(e));
            assert(src_old.to_multiset().count(e) > 0);
            assert(src@.to_multiset() == src_old.to_multiset().remove(e));
            assert(out@.to_multiset() == out_old.to_multiset().insert(e));
            assert(out@.to_multiset().add(src@.to_multiset()) =~= v@.to_multiset());
            assert forall|i2: int, j2: int|
                0 <= i2 < out@.len() && 0 <= j2 < src@.len() implies lex_le(
                (#[trigger] out@[i2]).0@,
                (#[trigger] src@[j2]).0@,
            ) by {
                let orig_j = if j2 < m as int {
                    j2
                } else {
                    j2 + 1
                };
                assert(src@[j2] == src_old[orig_j]);
                if i2 < out@.len() - 1 {
                    assert(lex_le(out@[i2].0@, src_old[orig_j].0@));
                } else {
                    assert(out@[i2] == e);
                    assert(lex_le(e.0@, src_old[orig_j].0@));
                }
            }
        }
    }
    proof {
        assert(src@.to_multiset() =~= Multiset::<(Vec<u8>, Weather)>::empty()) by {
            assert(src@ =~= Seq::<(Vec<u8>, Weather)>::empty());
        }
        assert(out@.to_multiset().add(Multiset::empty()) =~= out@.to_multiset());
    }
    out
}

/// Appends every byte of a name.
fn append_bytes(name: &Vec<u8>, out: &mut Vec<u8>)
    ensures
        final(out)@ == old(out)@ + name@,
{
    let n = name.len();
    let mut i: usize = 0;
    while i < n
        invariant
            i <= n,
            n == name@.len(),
            out@ == old(out)@ + name@.take(i as int),
        decreases n - i,
    {
        out.push(name[i]);
        proof {
            assert(old(out)@ + name@.take(i as int) + seq![name@[i as int]] =~= old(out)@
                + name@.take(i as int + 1));
        }
        i = i + 1;
    }
    proof {
        assert(name@.take(n as int) =~= name@);
    }
}

/// Renders the sorted summary: `{` then `name=min/mean/max` entries
/// joined by a comma and a space, then `}` and a newline.
pub fn format_summary(pairs: &Vec<(Vec<u8>, Weather)>) -> (out: Vec<u8>)
    requires
        forall|i: int| 0 <= i < pairs@.len() ==> (#[trigger] pairs@[i]).1.total >= 1,
        forall|i: int|
            0 <= i < pairs@.len() ==> -0x4_0000_0000_0000 <= (#[trigger] pairs@[i]).1.sum
                <= 0x4_0000_0000_0000,
    ensures
        out@ == spec_format(summary_of_pairs(pairs@)),
{
    let ghost es = summary_of_pairs(pairs@);
    let n = pairs.len();
    let mut out: Vec<u8> = Vec::new();
    out.push(123);
    proof {
        assert(out@ =~= seq![123u8] + spec_entries_bytes(es, 0));
    }
    let mut i: usize = 0;
    while i < n
        invariant
            i <= n,
            n == pairs@.len(),
            es == summary_of_pairs(pairs@),
            forall|q: int| 0 <= q < pairs@.len() ==> (#[trigger] pairs@[q]).1.total >= 1,
            forall|q: int|
                0 <= q < pairs@.len() ==> -0x4_0000_0000_0000 <= (#[trigger] pairs@[q]).1.sum
                    <= 0x4_0000_0000_0000,
            out@ == seq![123u8] + spec_entries_bytes(es, i as int),
        decreases n - i,
    {
        if i > 0 {
            out.push(44);
            out.push(32);
        }
        let ghost out_sep = out@;
        append_bytes(&pairs[i].0, &mut out);
        out.push(61);
        render_tenths(pairs[i].1.min as i64, &mut out);
        out.push(47);
        let mean = mean_tenths(pairs[i].1.sum, pairs[i].1.total);
        render_tenths(mean, &mut out);
        out.push(47);
        render_tenths(pairs[i].1.max as i64, &mut out);
        proof {
            assert(out@ =~= out_sep + spec_entry_bytes(es[i as int]));
            if i == 0 {
                assert(out@ =~= seq![123u8] + spec_entries_bytes(es, 1));
            } else {
                assert(out_sep =~= (seq![123u8] + spec_entries_bytes(es, i as int)) + seq![
                    44u8,
                    32u8,
                ]);
                assert(out@ =~= seq![123u8] + spec_entries_bytes(es, i as int + 1));
            }
        }
        i = i + 1;
    }
    out.push(125);
    out.push(10);
    proof {
        assert(out@ =~= spec_format(es));
    }
    out
}

/// Entries are strictly ascending by station name.
pub open spec fn sorted_strict(es: Seq<SummaryEntry>) -> bool {
    forall|i: int, j: int| 0 <= i < j < es.len() ==> lex_lt((#[trigger] es[i]).0, (#[trigger] es[j]).0)
}

/// The entries carry exactly the stations of the table `m`, each with
/// its minimum, rounded mean, and maximum.
pub open spec fn summary_matches(es: Seq<SummaryEntry>, m: Map<Seq<u8>, SpecStats>) -> bool {
    &&& forall|i: int|
        0 <= i < es.len() ==> m.contains_key((#[trigger] es[i]).0) && es[i].1 == m[es[i].0].min
            && es[i].2 == spec_mean_tenths(m[es[i].0].sum, m[es[i].0].total) && es[i].3
            == m[es[i].0].max
    &&& forall|k: Seq<u8>|
        m.contains_key(k) ==> exists|i: int| 0 <= i < es.len() && (#[trigger] es[i]).0 == k
}

/// Takes a table apart into its pairs, sorted strictly ascending by
/// station name.
pub fn sorted_pairs(t: AggTable) -> (r: Vec<(Vec<u8>, Weather)>)
    requires
        t.wf(),
    ensures
        forall|i: int, j: int|
            0 <= i < j < r@.len() ==> lex_lt((#[trigger] r@[i]).0@, (#[trigger] r@[j]).0@),
        forall|i: int|
            0 <= i < r@.len() ==> t@.contains_key((#[trigger] r@[i]).0@) && t@[r@[i].0@]
                == stats_of(r@[i].1),
        forall|k: Seq<u8>|
            t@.contains_key(k) ==> exists|i: int| 0 <= i < r@.len() && (#[trigger] r@[i].0@) == k,
{
    broadcast use vstd::seq_lib::group_to_multiset_ensures;

    let ghost tv = t@;
    let p0 = t.into_pairs();
    let ghost p = p0@;
    let r = sort_pairs(p0);
    proof {
        assert(p.no_duplicates()) by {
            assert forall|a: int, b: int|
                0 <= a < p.len() && 0 <= b < p.len() && a != b implies p[a] != p[b] by {
                if a < b {
                    assert(p[a].0@ != p[b].0@);
                } else {
                    assert(p[b].0@ != p[a].0@);
                }
            }
        }
        p.lemma_multiset_has_no_duplicates();
        // every sorted element sits somewhere in the original pairs
        assert forall|i: int| 0 <= i < r@.len() implies exists|j: int|
            0 <= j < p.len() && p[j] == (#[trigger] r@[i]) by {
            assert(r@.contains(r@[i]));
            assert(r@.to_multiset().count(r@[i]) > 0);
            assert(p.to_multiset().count(r@[i]) > 0);
            assert(p.contains(r@[i]));
        }
        assert forall|x: (Vec<u8>, Weather)|
            r@.to_multiset().contains(x) implies r@.to_multiset().count(x) == 1 by {
            assert(p.to_multiset().count(x) == r@.to_multiset().count(x));
            assert(p.to_multiset().contains(x));
            assert(p.contains(x));
        }
        r@.lemma_multiset_has_no_duplicates_conv();
        // strictness: equal names would mean one pair twice
        assert forall|i: int, j: int| 0 <= i < j < r@.len() implies lex_lt(
            (#[trigger] r@[i]).0@,
            (#[trigger] r@[j]).0@,
        ) by {
            assert(r@.contains(r@[i]));
            assert(r@.to_multiset().count(r@[i]) > 0);
            assert(p.to_multiset().count(r@[i]) > 0);
            assert(p.contains(r@[i]));
            assert(r@.contains(r@[j]));
            assert(r@.to_multiset().count(r@[j]) > 0);
            assert(p.to_multiset().count(r@[j]) > 0);
            assert(p.contains(r@[j]));
            let a = choose|a: int| 0 <= a < p.len() && p[a] == r@[i];
            let b = choose|b: int| 0 <= b < p.len() && p[b] == r@[j];
            assert(lex_le(r@[i].0@, r@[j].0@));
            if r@[i].0@ == r@[j].0@ {
                if a != b {
                    assert(p[a].0@ != p[b].0@);
                }
                assert(r@[i] == r@[j]);
                assert(false);
            }
            assert(r@[i].0@ != r@[j].0@);
        }
        // each pair carries its station's statistics, and no station is lost
        assert forall|k: Seq<u8>| tv.contains_key(k) implies exists|i: int|
            0 <= i < r@.len() && (#[trigger] r@[i].0@) == k by {
            let j = choose|j: int| 0 <= j < p.len() && (#[trigger] p[j].0@) == k;
            assert(p.contains(p[j]));
            assert(p.to_multiset().count(p[j]) > 0);
            assert(r@.to_multiset().count(p[j]) > 0);
            assert(r@.contains(p[j]));
            let i = choose|i: int| 0 <= i < r@.len() && r@[i] == p[j];
            assert(r@[i].0@ == k);
        }
    }
    r
}

/// There is only one strictly sorted summary of a table: `run`'s output
/// is thereby pinned down.
pub proof fn lemma_summary_unique(
    es1: Seq<SummaryEntry>,
    es2: Seq<SummaryEntry>,
    m: Map<Seq<u8>, SpecStats>,
)
    requires
        sorted_strict(es1),
        sorted_strict(es2),
        summary_matches(es1, m),
        summary_matches(es2, m),
    ensures
        es1 == es2,
    decreases es1.len(),
{
    if es1.len() == 0 {
        if es2.len() > 0 {
            assert(m.contains_key(es2[0].0));
            let i = choose|i: int| 0 <= i < es1.len() && es1[i].0 == es2[0].0;
            assert(false);
        }
        assert(es1 =~= es2);
    } else if es2.len() == 0 {
        assert(m.contains_key(es1[0].0));
        let i = choose|i: int| 0 <= i < es2.len() && es2[i].0 == es1[0].0;
        assert(false);
    } else {
        // both heads are the least station of the table, so they agree
        let k1 = es1[0].0;
        let k2 = es2[0].0;
        assert(m.contains_key(k1) && m.contains_key(k2));
        let i2 = choose|i: int| 0 <= i < es2.len() && (#[trigger] es2[i]).0 == k1;
        let i1 = choose|i: int| 0 <= i < es1.len() && (#[trigger] es1[i]).0 == k2;
        lemma_lex_total(k1, k2);
        if lex_lt(k1, k2) {
            if i2 > 0 {
                assert(lex_lt(k2, es2[i2].0));
                assert(es2[i2].0 == k1);
                lemma_lex_asym(k1, k2);
                assert(false);
            }
            assert(k2 == k1);
            lemma_lex_irrefl(k1);
            assert(false);
        } else if lex_lt(k2, k1) {
            if i1 > 0 {
                assert(lex_lt(k1, es1[i1].0));
                assert(es1[i1].0 == k2);
                lemma_lex_asym(k2, k1);
                assert(false);
            }
            assert(k1 == k2);
            lemma_lex_irrefl(k1);
            assert(false);
        }
        assert(k1 == k2);
        assert(es1[0] == es2[0]);
        // the tails are the unique sorted summaries of the table without
        // that station
        let m2 = m.remove(k1);
        let t1 = es1.skip(1);
        let t2 = es2.skip(1);
        assert(sorted_strict(t1)) by {
            assert(forall|i: int, j: int|
                0 <= i < j < t1.len() ==> lex_lt((#[trigger] t1[i]).0, (#[trigger] t1[j]).0));
        }
        assert(sorted_strict(t2)) by {
            assert(forall|i: int, j: int|
                0 <= i < j < t2.len() ==> lex_lt((#[trigger] t2[i]).0, (#[trigger] t2[j]).0));
        }
        assert(summary_matches(t1, m2)) by {
            lemma_tail_matches(es1, m);
        }
        assert(summary_matches(t2, m2)) by {
            lemma_tail_matches(es2, m);
        }
        lemma_summary_unique(t1, t2, m2);
        assert(es1 =~= es2) by {
            assert(forall|i: int| 1 <= i < es1.len() ==> #[trigger] es1[i] == t1[i - 1]);
            assert(forall|i: int| 1 <= i < es2.len() ==> #[trigger] es2[i] == t2[i - 1]);
        }
    }
}

proof fn lemma_lex_irrefl(a: Seq<u8>)
    ensures
        !lex_lt(a, a),
    decreases a.len(),
{
    if a.len() > 0 {
        lemma_lex_irrefl(a.skip(1));
    }
}

proof fn lemma_lex_asym(a: Seq<u8>, b: Seq<u8>)
    requires
        lex_lt(a, b),
    ensures
        !lex_lt(b, a),
        a != b,
    decreases a.len(),
{
    if a.len() > 0 && b.len() > 0 && a[0] == b[0] {
        lemma_lex_asym(a.skip(1), b.skip(1));
        if a == b {
            assert(a.skip(1) == b.skip(1));
        }
    } else {
        if a == b {
            lemma_lex_irrefl(a);
        }
    }
}

/// Dropping a summary's first entry leaves the summary of the table
/// without that entry's station.
proof fn lemma_tail_matches(es: Seq<SummaryEntry>, m: Map<Seq<u8>, SpecStats>)
    requires
        sorted_strict(es),
        summary_matches(es, m),
        es.len() > 0,
    ensures
        summary_matches(es.skip(1), m.remove(es[0].0)),
{
    let k = es[0].0;
    let t = es.skip(1);
    let m2 = m.remove(k);
    assert forall|i: int| 0 <= i < t.len() implies m2.contains_key((#[trigger] t[i]).0) && t[i].1
        == m2[t[i].0].min && t[i].2 == spec_mean_tenths(m2[t[i].0].sum, m2[t[i].0].total)
        && t[i].3 == m2[t[i].0].max by {
        assert(t[i] == es[i + 1]);
        assert(lex_lt(es[0].0, es[i + 1].0));
        lemma_lex_asym(es[0].0, es[i + 1].0);
        assert(t[i].0 != k);
        assert(m.contains_key(t[i].0));
    }
    assert forall|k2: Seq<u8>| m2.contains_key(k2) implies exists|i: int|
        0 <= i < t.len() && (#[trigger] t[i]).0 == k2 by {
        assert(m.contains_key(k2));
        let i = choose|i: int| 0 <= i < es.len() && (#[trigger] es[i]).0 == k2;
        assert(k2 != k);
        assert(i >= 1);
        assert(t[i - 1].0 == k2);
    }
}

} // verus!
