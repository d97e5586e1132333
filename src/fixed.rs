use vstd::prelude::*;

verus! {

pub const ZERO: u8 = 48;

pub const NINE: u8 = 57;

pub const MINUS: u8 = 45;

pub const DOT: u8 = 46;

pub open spec fn is_digit(b: u8) -> bool {
    ZERO <= b <= NINE
}

pub open spec fn digit_value(b: u8) -> int {
    b as int - ZERO as int
}

/// The magnitude, in tenths, of `d[.d]` or `dd.d`; `None` for anything else.
pub open spec fn spec_unsigned_tenths(m: Seq<u8>) -> Option<int> {
    if m.len() == 3 && is_digit(m[0]) && m[1] == DOT && is_digit(m[2]) {
        Some(10 * digit_value(m[0]) + digit_value(m[2]))
    } else if m.len() == 4 && is_digit(m[0]) && is_digit(m[1]) && m[2] == DOT && is_digit(
        m[3],
    ) {
        Some(100 * digit_value(m[0]) + 10 * digit_value(m[1]) + digit_value(m[3]))
    } else {
        None
    }
}

/// The value of `["-"] digit [digit] "." digit` multiplied by ten, or `None`
/// when the bytes do not match that pattern.
pub open spec fn spec_tenths(s: Seq<u8>) -> Option<int> {
    if s.len() > 0 && s[0] == MINUS {
        match spec_unsigned_tenths(s.drop_first()) {
            Some(v) => Some(-v),
            None => None,
        }
    } else {
        spec_unsigned_tenths(s)
    }
}

fn digit_at(b: &[u8], i: usize) -> (r: Option<i16>)
    requires
        i < b@.len(),
    ensures
        r is Some <==> is_digit(b@[i as int]),
        r matches Some(d) ==> d == digit_value(b@[i as int]),
{
    let c = b[i];
    if ZERO <= c && c <= NINE {
        Some((c - ZERO) as i16)
    } else {
        None
    }
}

/// Parses a signed fixed-point number with one fractional digit into tenths.
pub fn parse_tenths(b: &[u8]) -> (r: Option<i16>)
    ensures
        r is Some <==> spec_tenths(b@) is Some,
        r matches Some(v) ==> spec_tenths(b@) == Some(v as int) && -999 <= v <= 999,
{
    let neg = b.len() > 0 && b[0] == MINUS;
    let start: usize = if neg { 1 } else { 0 };
    let n = b.len() - start;
    let m = Ghost(b@.subrange(start as int, b@.len() as int));
    assert(neg ==> m@ =~= b@.drop_first());
    assert(!neg ==> m@ =~= b@);
    let mag: Option<i16> = if n == 3 && b[start + 1] == DOT {
        match (digit_at(b, start), digit_at(b, start + 2)) {
            (Some(d0), Some(d2)) => Some(10 * d0 + d2),
            _ => None,
        }
    } else if n == 4 && b[start + 2] == DOT {
        match (digit_at(b, start), digit_at(b, start + 1), digit_at(b, start + 3)) {
            (Some(d0), Some(d1), Some(d3)) => Some(100 * d0 + 10 * d1 + d3),
            _ => None,
        }
    } else {
        None
    };
    assert(mag is Some <==> spec_unsigned_tenths(m@) is Some);
    match mag {
        Some(v) => {
            if neg {
                Some(-v)
            } else {
                Some(v)
            }
        },
        None => None,
    }
}

} // verus!
