//! Parsing the trailing score field of a record: a plain decimal numeral,
//! kept exactly as a fraction `num / den` with `den` the power of ten of the
//! written fraction digits.

use vstd::prelude::*;

verus! {

/// Largest numerator or denominator the parser accepts; a numeral needing
/// more is rejected rather than rounded.
pub const SCORE_LIMIT: u64 = 1000000000000000000;

/// The scan of a score field from position `i` on, with the digits seen so
/// far: `seen_dot` after the decimal point, `any` once a digit appeared,
/// `num` the digits' value and `den` ten to the number of fraction digits.
pub open spec fn score_rec(
    b: Seq<u8>,
    i: int,
    seen_dot: bool,
    any: bool,
    num: int,
    den: int,
) -> Option<(int, int)>
    decreases b.len() - i,
{
    if i < 0 {
        None
    } else if i >= b.len() {
        if any {
            Some((num, den))
        } else {
            None
        }
    } else {
        let c = b[i];
        if 48 <= c <= 57 {
            let num2 = 10 * num + (c - 48);
            let den2 = if seen_dot {
                10 * den
            } else {
                den
            };
            if num2 > SCORE_LIMIT || den2 > SCORE_LIMIT {
                None
            } else {
                score_rec(b, i + 1, seen_dot, true, num2, den2)
            }
        } else if c == 46 {
            if seen_dot {
                None
            } else {
                score_rec(b, i + 1, true, any, num, den)
            }
        } else {
            None
        }
    }
}

/// What a whole score field parses to: `Some((num, den))` exactly for a
/// numeral of digits with at most one decimal point and at least one digit.
pub open spec fn score_spec(b: Seq<u8>) -> Option<(int, int)> {
    score_rec(b, 0, false, false, 0, 1)
}

/// Parses a score field into its exact fraction.
pub fn parse_score(b: &[u8]) -> (r: Option<(u64, u64)>)
    ensures
        r matches Some(p) ==> score_spec(b@) == Some((p.0 as int, p.1 as int)) && 1 <= p.1
            <= SCORE_LIMIT && p.0 <= SCORE_LIMIT,
        r is None ==> score_spec(b@) is None,
{
    let mut num: u64 = 0;
    let mut den: u64 = 1;
    let mut seen_dot = false;
    let mut any = false;
    let mut i: usize = 0;
    while i < b.len()
        invariant
            i <= b@.len(),
            num <= SCORE_LIMIT,
            1 <= den <= SCORE_LIMIT,
            score_spec(b@) == score_rec(
                b@,
                i as int,
                seen_dot,
                any,
                num as int,
                den as int,
            ),
        decreases b@.len() - i,
    {
        let c = b[i];
        if 48 <= c && c <= 57 {
            let num2 = 10 * num + (c - 48) as u64;
            let den2 = if seen_dot {
                10 * den
            } else {
                den
            };
            if num2 > SCORE_LIMIT || den2 > SCORE_LIMIT {
                return None;
            }
            num = num2;
            den = den2;
            any = true;
        } else if c == 46 {
            if seen_dot {
                return None;
            }
            seen_dot = true;
        } else {
            return None;
        }
        i = i + 1;
    }
    if any {
        Some((num, den))
    } else {
        None
    }
}

} // verus!
