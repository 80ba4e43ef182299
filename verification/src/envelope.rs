//! A minimal reader of the output grammar, and the round-trip law.
//!
//! The formatter's output can be taken apart again: strip the brace
//! envelope, split entries on the comma-space joint, split an entry at
//! its last equals sign, split the values on the slashes, and read each
//! value back from its digits. Feeding the formatter's output through
//! this reader recovers exactly the entries that were rendered, for
//! every summary whose station names do not themselves contain the
//! comma-space joint.

use vstd::prelude::*;
use crate::format::{
    dec_digits, spec_entries_bytes, spec_entry_bytes, spec_format, spec_render_tenths,
    SummaryEntry,
};
use crate::temp::is_digit;

verus! {

/// Value of a digit string, most significant digit first.
pub open spec fn dec_val(s: Seq<u8>) -> int
    decreases s.len(),
{
    if s.len() == 0 {
        0
    } else {
        dec_val(s.drop_last()) * 10 + (s.last() - 48)
    }
}

/// Every byte is a decimal digit.
pub open spec fn all_digits(s: Seq<u8>) -> bool {
    forall|p: int| 0 <= p < s.len() ==> is_digit(#[trigger] s[p])
}

/// A comma-space joint sits at position `p`.
pub open spec fn has_joint_at(s: Seq<u8>, p: int) -> bool {
    0 <= p && p + 1 < s.len() && s[p] == 44 && s[p + 1] == 32
}

/// No comma-space joint anywhere in `s`.
pub open spec fn no_joint(s: Seq<u8>) -> bool {
    forall|p: int| !has_joint_at(s, p)
}

/// Last position `p < e` with byte `b`, or `-1`.
pub open spec fn find_last_byte(s: Seq<u8>, b: u8, e: int) -> int
    decreases e,
{
    if e <= 0 {
        -1
    } else if e - 1 < s.len() && s[e - 1] == b {
        e - 1
    } else {
        find_last_byte(s, b, e - 1)
    }
}

/// First position `p >= i` with byte `b`, or `-1`.
pub open spec fn find_first_byte(s: Seq<u8>, b: u8, i: int) -> int
    decreases s.len() - i,
{
    if i < 0 || i >= s.len() {
        -1
    } else if s[i] == b {
        i
    } else {
        find_first_byte(s, b, i + 1)
    }
}

/// Last position `p < e` where a comma-space joint sits, or `-1`.
pub open spec fn find_last_joint(s: Seq<u8>, e: int) -> int
    decreases e,
{
    if e <= 0 {
        -1
    } else if has_joint_at(s, e - 1) {
        e - 1
    } else {
        find_last_joint(s, e - 1)
    }
}

/// Reads `digits.digit` back into tenths.
pub open spec fn parse_mag(s: Seq<u8>) -> Option<int> {
    if s.len() >= 3 && s[s.len() - 2] == 46 && is_digit(s[s.len() - 1]) && all_digits(
        s.take(s.len() - 2),
    ) {
        Some(dec_val(s.take(s.len() - 2)) * 10 + (s[s.len() - 1] - 48))
    } else {
        None
    }
}

/// Reads an optionally signed value back into tenths.
pub open spec fn parse_tenths(s: Seq<u8>) -> Option<int> {
    if s.len() > 0 && s[0] == 45 {
        match parse_mag(s.skip(1)) {
            Some(m) => Some(-m),
            None => None,
        }
    } else {
        parse_mag(s)
    }
}

/// Reads one `name=min/mean/max` entry: the name runs to the last
/// equals sign, the values split on the slashes.
pub open spec fn parse_entry(s: Seq<u8>) -> Option<SummaryEntry> {
    let e = find_last_byte(s, 61, s.len() as int);
    if e <= 0 {
        None
    } else {
        let name = s.take(e);
        let vals = s.skip(e + 1);
        let i1 = find_first_byte(vals, 47, 0);
        if i1 < 0 {
            None
        } else {
            let rest = vals.skip(i1 + 1);
            let i2 = find_first_byte(rest, 47, 0);
            if i2 < 0 {
                None
            } else {
                match (parse_tenths(vals.take(i1)), parse_tenths(rest.take(i2)), parse_tenths(
                    rest.skip(i2 + 1),
                )) {
                    (Some(x1), Some(x2), Some(x3)) => Some((name, x1, x2, x3)),
                    _ => None,
                }
            }
        }
    }
}

/// Reads a nonempty entry list joined by comma-space.
pub open spec fn parse_entry_list(s: Seq<u8>) -> Option<Seq<SummaryEntry>>
    decreases s.len(),
{
    let p = find_last_joint(s, s.len() as int);
    if p < 0 {
        match parse_entry(s) {
            Some(e) => Some(seq![e]),
            None => None,
        }
    } else if p + 2 > s.len() {
        None
    } else {
        match parse_entry_list(s.take(p)) {
            Some(front) => match parse_entry(s.skip(p + 2)) {
                Some(e) => Some(front.push(e)),
                None => None,
            },
            None => None,
        }
    }
}

/// Reads a whole summary back: strip the brace envelope and the final
/// newline, then read the entry list.
pub open spec fn spec_parse_envelope(s: Seq<u8>) -> Option<Seq<SummaryEntry>> {
    if s.len() >= 3 && s[0] == 123 && s[s.len() - 2] == 125 && s[s.len() - 1] == 10 {
        let inner = s.subrange(1, s.len() - 2);
        if inner.len() == 0 {
            Some(Seq::empty())
        } else {
            parse_entry_list(inner)
        }
    } else {
        None
    }
}

/// Rendering a nonnegative value and reading its digits back is the
/// identity, and the digits are digits.
proof fn lemma_dec_digits_roundtrip(n: int)
    requires
        n >= 0,
    ensures
        all_digits(dec_digits(n)),
        dec_digits(n).len() >= 1,
        dec_val(dec_digits(n)) == n,
    decreases n,
{
    if n <= 9 {
        let d = seq![(48 + n) as u8];
        assert(dec_digits(n) == d);
        assert(d.drop_last() =~= Seq::<u8>::empty());
        assert(dec_val(Seq::<u8>::empty()) == 0);
        assert(d.last() == (48 + n) as u8);
        assert(dec_val(d) == n);
    } else {
        lemma_dec_digits_roundtrip(n / 10);
        let d = dec_digits(n / 10);
        let full = d.push((48 + n % 10) as u8);
        assert(full.drop_last() =~= d);
        assert(dec_val(full) == dec_val(d) * 10 + n % 10);
        assert(forall|p: int| 0 <= p < d.len() ==> full[p] == #[trigger] d[p]);
    }
}

/// Bytes a rendered value can hold: sign, digits, dot.
pub open spec fn render_byte(c: u8) -> bool {
    c == 45 || c == 46 || is_digit(c)
}

/// Rendering a value in tenths and reading it back is the identity, and
/// the rendering holds no joint, slash, or equals byte.
proof fn lemma_render_roundtrip(v: int)
    ensures
        parse_tenths(spec_render_tenths(v)) == Some(v),
        forall|p: int|
            0 <= p < spec_render_tenths(v).len() ==> render_byte(
                #[trigger] spec_render_tenths(v)[p],
            ),
        spec_render_tenths(v).len() >= 3,
{
    let a = if v < 0 {
        -v
    } else {
        v
    };
    lemma_dec_digits_roundtrip(a / 10);
    let d = dec_digits(a / 10);
    let mag = d + seq![46u8, (48 + a % 10) as u8];
    assert(mag.take(mag.len() - 2) =~= d);
    assert(mag[mag.len() - 2] == 46);
    assert(mag[mag.len() - 1] == (48 + a % 10) as u8);
    assert(parse_mag(mag) == Some(a)) by {
        assert(dec_val(d) * 10 + a % 10 == (a / 10) * 10 + a % 10);
    }
    if v < 0 {
        let r = spec_render_tenths(v);
        assert(r =~= seq![45u8] + mag);
        assert(r[0] == 45);
        assert(r.skip(1) =~= mag);
    } else {
        let r = spec_render_tenths(v);
        assert(r =~= mag);
        assert(r.len() > 0 && is_digit(r[0]));
    }
}

proof fn lemma_find_last_byte_none_above(s: Seq<u8>, b: u8, q: int, e: int)
    requires
        0 <= q <= e,
        forall|p: int| q <= p < e && p < s.len() ==> s[p] != b,
    ensures
        find_last_byte(s, b, e) == find_last_byte(s, b, q),
    decreases e - q,
{
    if e > q {
        lemma_find_last_byte_none_above(s, b, q, e - 1);
    }
}

proof fn lemma_find_first_byte_at(s: Seq<u8>, b: u8, i: int, q: int)
    requires
        0 <= i <= q < s.len(),
        s[q] == b,
        forall|p: int| i <= p < q ==> s[p] != b,
    ensures
        find_first_byte(s, b, i) == q,
    decreases q - i,
{
    if i < q {
        lemma_find_first_byte_at(s, b, i + 1, q);
    }
}

proof fn lemma_find_last_joint_none_above(s: Seq<u8>, q: int, e: int)
    requires
        0 <= q <= e,
        forall|p: int| q <= p < e ==> !has_joint_at(s, p),
    ensures
        find_last_joint(s, e) == find_last_joint(s, q),
    decreases e - q,
{
    if e > q {
        lemma_find_last_joint_none_above(s, q, e - 1);
    }
}

proof fn lemma_no_joint_find(s: Seq<u8>, e: int)
    requires
        no_joint(s),
        e <= s.len(),
    ensures
        find_last_joint(s, e) == -1,
    decreases e,
{
    if e > 0 {
        lemma_no_joint_find(s, e - 1);
    }
}

/// One rendered entry reads back as itself, holds no comma-space joint,
/// and is nonempty.
proof fn lemma_entry_roundtrip(e: SummaryEntry)
    requires
        e.0.len() > 0,
        no_joint(e.0),
    ensures
        parse_entry(spec_entry_bytes(e)) == Some(e),
        no_joint(spec_entry_bytes(e)),
        spec_entry_bytes(e).len() > 0,
{
    let name = e.0;
    let r1 = spec_render_tenths(e.1);
    let r2 = spec_render_tenths(e.2);
    let r3 = spec_render_tenths(e.3);
    lemma_render_roundtrip(e.1);
    lemma_render_roundtrip(e.2);
    lemma_render_roundtrip(e.3);
    let s = spec_entry_bytes(e);
    let nl = name.len() as int;
    assert(s =~= name + seq![61u8] + r1 + seq![47u8] + r2 + seq![47u8] + r3);
    // everything after the separating equals sign is a rendered value or
    // a slash, so the last equals sign is the separator
    assert(forall|p: int| nl < p < s.len() ==> s[p] != 61) by {
        assert forall|p: int| nl < p < s.len() implies s[p] != 61 by {
            let v1 = nl + 1;
            if p < v1 + r1.len() {
                assert(s[p] == r1[p - v1]);
                assert(render_byte(r1[p - v1]));
            } else if p == v1 + r1.len() {
                assert(s[p] == 47);
            } else if p < v1 + r1.len() + 1 + r2.len() {
                assert(s[p] == r2[p - (v1 + r1.len() + 1)]);
                assert(render_byte(r2[p - (v1 + r1.len() + 1)]));
            } else if p == v1 + r1.len() + 1 + r2.len() {
                assert(s[p] == 47);
            } else {
                assert(s[p] == r3[p - (v1 + r1.len() + 1 + r2.len() + 1)]);
                assert(render_byte(r3[p - (v1 + r1.len() + 1 + r2.len() + 1)]));
            }
        }
    }
    assert(s[nl] == 61);
    lemma_find_last_byte_none_above(s, 61, nl + 1, s.len() as int);
    assert(find_last_byte(s, 61, nl + 1) == nl);
    assert(s.take(nl) =~= name);
    let vals = s.skip(nl + 1);
    assert(vals =~= r1 + seq![47u8] + r2 + seq![47u8] + r3);
    assert(forall|p: int| 0 <= p < r1.len() ==> vals[p] == #[trigger] r1[p]);
    assert(vals[r1.len() as int] == 47);
    assert(forall|p: int| 0 <= p < r1.len() ==> vals[p] != 47) by {
        assert forall|p: int| 0 <= p < r1.len() implies vals[p] != 47 by {
            assert(render_byte(r1[p]));
        }
    }
    lemma_find_first_byte_at(vals, 47, 0, r1.len() as int);
    assert(vals.take(r1.len() as int) =~= r1);
    let rest = vals.skip(r1.len() as int + 1);
    assert(rest =~= r2 + seq![47u8] + r3);
    assert(forall|p: int| 0 <= p < r2.len() ==> rest[p] == #[trigger] r2[p]);
    assert(rest[r2.len() as int] == 47);
    assert(forall|p: int| 0 <= p < r2.len() ==> rest[p] != 47) by {
        assert forall|p: int| 0 <= p < r2.len() implies rest[p] != 47 by {
            assert(render_byte(r2[p]));
        }
    }
    lemma_find_first_byte_at(rest, 47, 0, r2.len() as int);
    assert(rest.take(r2.len() as int) =~= r2);
    assert(rest.skip(r2.len() as int + 1) =~= r3);
    assert(parse_entry(s) == Some((name, e.1, e.2, e.3)));
    assert((name, e.1, e.2, e.3) == e);
    // no joint: the name has none, and past the name no comma occurs
    assert forall|p: int| !has_joint_at(s, p) by {
        if 0 <= p && p + 1 < s.len() {
            if p + 1 < nl {
                assert(s[p] == name[p] && s[p + 1] == name[p + 1]);
                assert(!has_joint_at(name, p));
            } else if p < nl {
                assert(s[p + 1] == 61);
            } else if s[p] == 44 {
                let v1 = nl + 1;
                if p == nl {
                } else if p < v1 + r1.len() {
                    assert(s[p] == r1[p - v1]);
                    assert(render_byte(r1[p - v1]));
                } else if p == v1 + r1.len() {
                } else if p < v1 + r1.len() + 1 + r2.len() {
                    assert(s[p] == r2[p - (v1 + r1.len() + 1)]);
                    assert(render_byte(r2[p - (v1 + r1.len() + 1)]));
                } else if p == v1 + r1.len() + 1 + r2.len() {
                } else {
                    assert(s[p] == r3[p - (v1 + r1.len() + 1 + r2.len() + 1)]);
                    assert(render_byte(r3[p - (v1 + r1.len() + 1 + r2.len() + 1)]));
                }
                assert(s[p] != 44);
            }
        }
    }
}

/// A rendered entry list reads back as the entries themselves.
proof fn lemma_entries_roundtrip(es: Seq<SummaryEntry>, n: int)
    requires
        1 <= n <= es.len(),
        forall|i: int| 0 <= i < es.len() ==> (#[trigger] es[i]).0.len() > 0 && no_joint(es[i].0),
    ensures
        parse_entry_list(spec_entries_bytes(es, n)) == Some(es.take(n)),
        spec_entries_bytes(es, n).len() > 0,
    decreases n,
{
    if n == 1 {
        lemma_entry_roundtrip(es[0]);
        let s = spec_entries_bytes(es, 1);
        assert(s == spec_entry_bytes(es[0]));
        lemma_no_joint_find(s, s.len() as int);
        assert(seq![es[0]] =~= es.take(1));
    } else {
        lemma_entries_roundtrip(es, n - 1);
        lemma_entry_roundtrip(es[n - 1]);
        let prev = spec_entries_bytes(es, n - 1);
        let last = spec_entry_bytes(es[n - 1]);
        let s = spec_entries_bytes(es, n);
        let pl = prev.len() as int;
        assert(s =~= prev + seq![44u8, 32u8] + last);
        assert(has_joint_at(s, pl));
        assert(forall|p: int| pl < p < s.len() ==> !has_joint_at(s, p)) by {
            assert forall|p: int| pl < p < s.len() implies !has_joint_at(s, p) by {
                if p + 1 < s.len() {
                    if p == pl + 1 {
                        assert(s[p] == 32);
                    } else {
                        assert(s[p] == last[p - (pl + 2)]);
                        assert(s[p + 1] == last[p + 1 - (pl + 2)]);
                        assert(!has_joint_at(last, p - (pl + 2)));
                    }
                }
            }
        }
        lemma_find_last_joint_none_above(s, pl + 1, s.len() as int);
        assert(find_last_joint(s, pl + 1) == pl);
        assert(s.take(pl) =~= prev);
        assert(s.skip(pl + 2) =~= last);
        assert(es.take(n - 1).push(es[n - 1]) =~= es.take(n));
    }
}

/// Round trip: the formatter's output, read back through the envelope
/// grammar, recovers exactly the rendered entries. Station names that
/// hold the comma-space joint themselves are the one exclusion: the
/// joined list is ambiguous for them.
pub proof fn lemma_format_roundtrip(es: Seq<SummaryEntry>)
    requires
        forall|i: int| 0 <= i < es.len() ==> (#[trigger] es[i]).0.len() > 0 && no_joint(es[i].0),
    ensures
        spec_parse_envelope(spec_format(es)) == Some(es),
{
    let s = spec_format(es);
    let inner = spec_entries_bytes(es, es.len() as int);
    assert(s == seq![123u8] + inner + seq![125u8, 10u8]);
    assert(s[0] == 123);
    assert(s[s.len() - 2] == 125);
    assert(s[s.len() - 1] == 10);
    assert(s.subrange(1, s.len() - 2) =~= inner);
    if es.len() == 0 {
        assert(inner.len() == 0);
        assert(Seq::<SummaryEntry>::empty() =~= es);
    } else {
        lemma_entries_roundtrip(es, es.len() as int);
        assert(es.take(es.len() as int) =~= es);
    }
}

} // verus!
