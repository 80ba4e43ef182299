//! Delimiter scanner and field extractor.
//!
//! The scanner turns a fixed 64-byte window of the buffer into a bitmask
//! with one bit per position, set exactly where the byte is a field
//! separator or record terminator; an undersized final window leaves the
//! high bits clear. The extractor walks the mask in ascending bit order
//! and emits the span between the previous separator and each set bit.

use vstd::prelude::*;
use crate::model::{field_start, is_sep, lemma_seps_in_clamp, lemma_seps_in_concat, seps, seps_in};

verus! {

/// Whether bit `i` of `m` is set.
pub open spec fn bit_at(m: u64, i: u64) -> bool {
    (m >> i) & 1u64 == 1u64
}

proof fn lemma_bit_zero(j: u64)
    requires
        j < 64,
    ensures
        !bit_at(0u64, j),
{
    assert((0u64 >> j) & 1u64 == 0u64) by (bit_vector);
}

proof fn lemma_bit_or_set(m: u64, i: u64, j: u64)
    requires
        i < 64,
        j < 64,
    ensures
        bit_at(m | (1u64 << i), j) <==> (i == j || bit_at(m, j)),
{
    assert((((m | (1u64 << i)) >> j) & 1u64 == 1u64) <==> (i == j || ((m >> j) & 1u64 == 1u64)))
        by (bit_vector)
        requires
            i < 64 && j < 64,
    ;
}

/// Scans the window of up to 64 bytes at `pos` and returns the mask of
/// separator positions: bit `i` is set exactly when byte `pos + i` is in
/// bounds and is `;` or a newline.
pub fn scan_window(data: &[u8], pos: usize) -> (mask: u64)
    requires
        pos < data@.len(),
    ensures
        forall|i: u64|
            i < 64 ==> (#[trigger] bit_at(mask, i) <==> (pos + i < data@.len() && is_sep(
                data@[pos + i],
            ))),
{
    let len = data.len();
    let span = len - pos;
    let end: usize = if span < 64 {
        span
    } else {
        64
    };
    let mut mask: u64 = 0;
    let mut i: usize = 0;
    proof {
        assert forall|j: u64| j < 64 implies !bit_at(0u64, j) by {
            lemma_bit_zero(j);
        }
    }
    while i < end
        invariant
            i <= end,
            end <= 64,
            pos + end <= len,
            end == 64 || pos + end == len,
            len == data@.len(),
            forall|j: u64| j < i ==> (#[trigger] bit_at(mask, j) <==> is_sep(data@[pos + j])),
            forall|j: u64| i <= j < 64 ==> !(#[trigger] bit_at(mask, j)),
        decreases end - i,
    {
        let b = data[pos + i];
        if b == 59 || b == 10 {
            let newmask = mask | (1u64 << (i as u64));
            proof {
                assert forall|j: u64| j < 64 implies (bit_at(newmask, j) <==> (j == i
                    || bit_at(mask, j))) by {
                    lemma_bit_or_set(mask, i as u64, j);
                }
            }
            mask = newmask;
        }
        i = i + 1;
    }
    mask
}

/// Emits one field span per set mask bit, in ascending bit order: the
/// span runs from the current field start `prev` to the separator, and
/// `prev` moves past the separator. Spans land in `fields`.
pub fn extract_fields(
    data: &[u8],
    prev: &mut usize,
    pos: usize,
    mask: u64,
    fields: &mut Vec<(usize, usize)>,
)
    requires
        pos < data@.len(),
        pos + 64 <= usize::MAX,
        forall|i: u64|
            i < 64 ==> (#[trigger] bit_at(mask, i) <==> (pos + i < data@.len() && is_sep(
                data@[pos + i],
            ))),
    ensures
        ({
            let s = seps_in(data@, pos as int, pos + 64);
            &&& final(fields)@.len() == old(fields)@.len() + s.len()
            &&& (forall|j: int|
                0 <= j < old(fields)@.len() ==> final(fields)@[j] == old(fields)@[j])
            &&& (forall|j: int|
                0 <= j < s.len() ==> (#[trigger] final(fields)@[old(fields)@.len() + j]).1 as int
                    == s[j])
            &&& (forall|j: int|
                0 <= j < s.len() ==> (#[trigger] final(fields)@[old(fields)@.len() + j]).0 as int
                    == (if j == 0 {
                    *old(prev) as int
                } else {
                    s[j - 1] + 1
                }))
            &&& *final(prev) as int == (if s.len() > 0 {
                s[s.len() - 1] + 1
            } else {
                *old(prev) as int
            })
        }),
{
    let mut i: usize = 0;
    while i < 64
        invariant
            i <= 64,
            pos < data@.len(),
            pos + 64 <= usize::MAX,
            forall|b: u64|
                b < 64 ==> (#[trigger] bit_at(mask, b) <==> (pos + b < data@.len() && is_sep(
                    data@[pos + b],
                ))),
            ({
                let s = seps_in(data@, pos as int, pos + i);
                &&& fields@.len() == old(fields)@.len() + s.len()
                &&& (forall|j: int| 0 <= j < old(fields)@.len() ==> fields@[j] == old(fields)@[j])
                &&& (forall|j: int|
                    0 <= j < s.len() ==> (#[trigger] fields@[old(fields)@.len() + j]).1 as int
                        == s[j])
                &&& (forall|j: int|
                    0 <= j < s.len() ==> (#[trigger] fields@[old(fields)@.len() + j]).0 as int
                        == (if j == 0 {
                        *old(prev) as int
                    } else {
                        s[j - 1] + 1
                    }))
                &&& *prev as int == (if s.len() > 0 {
                    s[s.len() - 1] + 1
                } else {
                    *old(prev) as int
                })
            }),
        decreases 64 - i,
    {
        let ghost s_before = seps_in(data@, pos as int, pos + i);
        let bit = (mask >> (i as u64)) & 1;
        proof {
            assert(bit == 1 <==> bit_at(mask, i as u64));
            assert(seps_in(data@, pos as int, pos + i + 1) == if pos + i < data@.len() && is_sep(
                data@[pos + i],
            ) {
                s_before.push(pos + i)
            } else {
                s_before
            });
        }
        if bit == 1 {
            fields.push((*prev, pos + i));
            *prev = pos + i + 1;
        }
        i = i + 1;
    }
}

/// Scans the whole buffer window by window and collects every field
/// span: span `j` runs from the start of field `j` to separator `j`.
pub fn collect_fields(data: &[u8]) -> (fields: Vec<(usize, usize)>)
    requires
        data@.len() + 64 <= usize::MAX,
    ensures
        fields@.len() == seps(data@).len(),
        forall|j: int|
            0 <= j < fields@.len() ==> (#[trigger] fields@[j]).0 as int == field_start(data@, j)
                && fields@[j].1 as int == seps(data@)[j],
{
    let len = data.len();
    let mut fields: Vec<(usize, usize)> = Vec::new();
    let mut prev: usize = 0;
    let mut pos: usize = 0;
    while pos < len
        invariant
            len == data@.len(),
            len + 64 <= usize::MAX,
            pos <= len + 63,
            ({
                let s = seps_in(data@, 0, pos as int);
                &&& fields@.len() == s.len()
                &&& (forall|j: int|
                    0 <= j < s.len() ==> (#[trigger] fields@[j]).1 as int == s[j])
                &&& (forall|j: int|
                    0 <= j < s.len() ==> (#[trigger] fields@[j]).0 as int == (if j == 0 {
                        0
                    } else {
                        s[j - 1] + 1
                    }))
                &&& prev as int == (if s.len() > 0 {
                    s[s.len() - 1] + 1
                } else {
                    0
                })
            }),
        decreases len + 64 - pos,
    {
        let ghost s_old = seps_in(data@, 0, pos as int);
        let ghost fields_old = fields@;
        let ghost old_len = fields@.len() as int;
        let ghost prev_old = prev as int;
        let mask = scan_window(data, pos);
        extract_fields(data, &mut prev, pos, mask, &mut fields);
        proof {
            lemma_seps_in_concat(data@, 0, pos as int, pos + 64);
            let s_win = seps_in(data@, pos as int, pos + 64);
            let s_new = seps_in(data@, 0, pos + 64);
            assert(s_new == s_old + s_win);
            assert forall|j: int| 0 <= j < s_new.len() implies (#[trigger] fields@[j]).1 as int
                == s_new[j] && fields@[j].0 as int == (if j == 0 {
                0
            } else {
                s_new[j - 1] + 1
            }) by {
                if j < old_len {
                    assert(fields@[j] == fields_old[j]);
                    assert(s_new[j] == s_old[j]);
                    if j > 0 {
                        assert(s_new[j - 1] == s_old[j - 1]);
                    }
                } else {
                    let w = j - old_len;
                    assert(s_new[j] == s_win[w]);
                    assert((fields@[old_len + w]).1 as int == s_win[w]);
                    assert((fields@[old_len + w]).0 as int == (if w == 0 {
                        prev_old
                    } else {
                        s_win[w - 1] + 1
                    }));
                    assert(j == old_len + w);
                    if w == 0 {
                        if j > 0 {
                            assert(s_new[j - 1] == s_old[j - 1]);
                            assert(prev_old == s_old[s_old.len() - 1] + 1);
                        }
                    } else {
                        assert(s_new[j - 1] == s_win[w - 1]);
                    }
                }
            }
            if s_win.len() > 0 {
                assert(s_new[s_new.len() - 1] == s_win[s_win.len() - 1]);
            } else {
                assert(s_new =~= s_old);
            }
        }
        pos = pos + 64;
    }
    proof {
        if pos > len {
            lemma_seps_in_clamp(data@, 0, pos as int);
        }
        assert(seps_in(data@, 0, pos as int) == seps(data@));
    }
    fields
}

} // verus!
