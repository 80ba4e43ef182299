//! Fixed-point temperature parser.
//!
//! A temperature is a byte span matching `-?D{1,2}.D`. Its value is the
//! decimal reading multiplied by ten, held in a signed integer, so the
//! pipeline never touches floating point.

use vstd::prelude::*;

verus! {

/// An ASCII decimal digit.
pub open spec fn is_digit(b: u8) -> bool {
    48 <= b <= 57
}

/// The unsigned part of the temperature grammar: `D.D` or `DD.D`.
pub open spec fn is_temp_mag(t: Seq<u8>) -> bool {
    ||| (t.len() == 3 && is_digit(t[0]) && t[1] == 46 && is_digit(t[2]))
    ||| (t.len() == 4 && is_digit(t[0]) && is_digit(t[1]) && t[2] == 46 && is_digit(t[3]))
}

/// The full temperature grammar: an optional leading minus before `D{1,2}.D`.
pub open spec fn is_temp(t: Seq<u8>) -> bool {
    if t.len() > 0 && t[0] == 45 {
        is_temp_mag(t.skip(1))
    } else {
        is_temp_mag(t)
    }
}

/// Value in tenths of the unsigned grammar `D.D` or `DD.D`.
pub open spec fn temp_mag(t: Seq<u8>) -> int {
    if t.len() == 3 {
        (t[0] - 48) * 10 + (t[2] - 48)
    } else {
        (t[0] - 48) * 100 + (t[1] - 48) * 10 + (t[3] - 48)
    }
}

/// Value in tenths of a full temperature span, sign included.
pub open spec fn temp_value(t: Seq<u8>) -> int {
    if t.len() > 0 && t[0] == 45 {
        -temp_mag(t.skip(1))
    } else {
        temp_mag(t)
    }
}

/// Parses a temperature span into tenths of a degree.
pub fn parse_temp(t: &[u8]) -> (r: i16)
    requires
        is_temp(t@),
    ensures
        r as int == temp_value(t@),
        -999 <= r as int <= 999,
{
    let n = t.len();
    let neg = t[0] == 45;
    let skip: usize = if neg { 1 } else { 0 };
    proof {
        if neg {
            assert(is_temp_mag(t@.skip(1)));
            assert(t@.skip(1).len() == n - 1);
            assert(t@.skip(1)[0] == t@[1]);
            if n - 1 == 4 {
                assert(t@.skip(1)[1] == t@[2]);
                assert(t@.skip(1)[3] == t@[4]);
            } else {
                assert(t@.skip(1)[2] == t@[3]);
            }
        }
    }
    let mag: i16 = if n - skip == 4 {
        (t[skip] - 48) as i16 * 100 + (t[skip + 1] - 48) as i16 * 10 + (t[n - 1] - 48) as i16
    } else {
        (t[skip] - 48) as i16 * 10 + (t[n - 1] - 48) as i16
    };
    if neg {
        -mag
    } else {
        mag
    }
}

/// Checks a byte span against the temperature grammar.
pub fn is_temp_exec(t: &[u8]) -> (r: bool)
    ensures
        r == is_temp(t@),
{
    let n = t.len();
    if n == 0 {
        return false;
    }
    let neg = t[0] == 45;
    let skip: usize = if neg { 1 } else { 0 };
    let m = n - skip;
    proof {
        if neg {
            assert(t@.skip(1).len() == n - 1);
            assert(forall|i: int| 0 <= i < n - 1 ==> t@.skip(1)[i] == t@[i + 1]);
        }
    }
    if m == 3 {
        let d0 = t[skip];
        let dot = t[skip + 1];
        let d1 = t[skip + 2];
        48 <= d0 && d0 <= 57 && dot == 46 && 48 <= d1 && d1 <= 57
    } else if m == 4 {
        let d0 = t[skip];
        let d1 = t[skip + 1];
        let dot = t[skip + 2];
        let d2 = t[skip + 3];
        48 <= d0 && d0 <= 57 && 48 <= d1 && d1 <= 57 && dot == 46 && 48 <= d2 && d2 <= 57
    } else {
        false
    }
}

/// The grammar keeps every temperature value within one thousand tenths.
pub proof fn lemma_temp_value_range(t: Seq<u8>)
    requires
        is_temp(t),
    ensures
        -999 <= temp_value(t) <= 999,
{
}

} // verus!
