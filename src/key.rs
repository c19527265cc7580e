//! Key comparison: byte-wise, or as signed 64-bit integers.
use core::cmp::Ordering;
use vstd::prelude::*;

use crate::record::{bytes_cmp, compare_bytes};
use crate::MergeError;

verus! {

pub open spec fn is_digit(c: u8) -> bool {
    48 <= c <= 57
}

/// The value of a string of decimal digits.
pub open spec fn digits_value(s: Seq<u8>) -> int
    decreases s.len(),
{
    if s.len() == 0 {
        0
    } else {
        digits_value(s.drop_last()) * 10 + (s.last() - 48)
    }
}

pub open spec fn all_digits(s: Seq<u8>) -> bool {
    s.len() > 0 && forall|i: int| 0 <= i < s.len() ==> is_digit(#[trigger] s[i])
}

/// The signed 64-bit integer written in `s`: an optional `+` or `-` and then
/// one or more decimal digits, nothing else, within the range of `i64`.
pub open spec fn parse_i64(s: Seq<u8>) -> Option<int> {
    if s.len() > 0 && s[0] == 45u8 {
        let d = s.drop_first();
        if all_digits(d) && digits_value(d) <= 9223372036854775808 {
            Some(-digits_value(d))
        } else {
            None
        }
    } else if s.len() > 0 && s[0] == 43u8 {
        let d = s.drop_first();
        if all_digits(d) && digits_value(d) <= 9223372036854775807 {
            Some(digits_value(d))
        } else {
            None
        }
    } else if all_digits(s) && digits_value(s) <= 9223372036854775807 {
        Some(digits_value(s))
    } else {
        None
    }
}

pub open spec fn int_cmp(a: int, b: int) -> Ordering {
    if a < b {
        Ordering::Less
    } else if a == b {
        Ordering::Equal
    } else {
        Ordering::Greater
    }
}

/// How two keys compare: byte-wise, or as numbers (none if one does not parse).
pub open spec fn key_cmp(a: Seq<u8>, b: Seq<u8>, numeric: bool) -> Option<Ordering> {
    if !numeric {
        Some(bytes_cmp(a, b))
    } else {
        match (parse_i64(a), parse_i64(b)) {
            (Some(x), Some(y)) => Some(int_cmp(x, y)),
            _ => None,
        }
    }
}

proof fn lemma_digits_value_push(s: Seq<u8>, c: u8)
    ensures
        digits_value(s.push(c)) == digits_value(s) * 10 + (c - 48),
{
    assert(s.push(c).drop_last() =~= s);
}

proof fn lemma_digits_value_nonneg(s: Seq<u8>)
    requires
        forall|i: int| 0 <= i < s.len() ==> is_digit(#[trigger] s[i]),
    ensures
        digits_value(s) >= 0,
    decreases s.len(),
{
    if s.len() > 0 {
        lemma_digits_value_nonneg(s.drop_last());
    }
}

pub proof fn lemma_parse_i64_range(s: Seq<u8>)
    ensures
        match parse_i64(s) {
            Some(v) => i64::MIN <= v <= i64::MAX,
            None => true,
        },
{
    if s.len() > 0 && all_digits(s.drop_first()) {
        lemma_digits_value_nonneg(s.drop_first());
    }
    if all_digits(s) {
        lemma_digits_value_nonneg(s);
    }
}

/// Reads the digits of `s` from `start` on; `None` if one is not a digit, if
/// there is none, or if their value exceeds `limit`.
fn read_digits(s: &Vec<u8>, start: usize, limit: u64) -> (r: Option<u64>)
    requires
        start <= s@.len(),
        limit >= 9,
    ensures
        ({
            let d = s@.skip(start as int);
            match r {
                Some(v) => all_digits(d) && v == digits_value(d) && v <= limit,
                None => !(all_digits(d) && digits_value(d) <= limit),
            }
        }),
{
    if start == s.len() {
        return None;
    }
    let ghost d = s@.skip(start as int);
    let mut acc: u64 = 0;
    let mut over = false;
    let mut i: usize = start;
    assert(s@.subrange(start as int, start as int) =~= Seq::<u8>::empty());
    while i < s.len()
        invariant
            start <= i <= s@.len(),
            limit >= 9,
            d == s@.skip(start as int),
            forall|k: int| start <= k < i ==> is_digit(#[trigger] s@[k]),
            !over ==> acc == digits_value(s@.subrange(start as int, i as int)) && acc <= limit,
            over ==> digits_value(s@.subrange(start as int, i as int)) > limit,
        decreases s.len() - i,
    {
        let c = s[i];
        if c < 48 || c > 57 {
            assert(!is_digit(d[i - start]));
            return None;
        }
        let ghost pre = s@.subrange(start as int, i as int);
        assert(s@.subrange(start as int, i + 1) =~= pre.push(c));
        proof {
            lemma_digits_value_push(pre, c);
            assert forall|k: int| 0 <= k < pre.len() implies is_digit(#[trigger] pre[k]) by {
                assert(pre[k] == s@[start + k]);
            }
            lemma_digits_value_nonneg(pre);
        }
        let dv = (c - 48) as u64;
        if !over {
            if acc > (limit - dv) / 10 {
                over = true;
                assert(acc * 10 + dv > limit) by (nonlinear_arith)
                    requires acc > (limit - dv) / 10, dv <= limit || dv > limit;
            } else {
                assert(acc * 10 + dv <= limit) by (nonlinear_arith)
                    requires acc <= (limit - dv) / 10, dv <= 9;
                acc = acc * 10 + dv;
            }
        } else {
            assert(digits_value(pre) * 10 + (c - 48) > limit) by (nonlinear_arith)
                requires digits_value(pre) > limit, 0 <= c - 48;
        }
        i += 1;
    }
    assert(s@.subrange(start as int, i as int) =~= d);
    assert forall|k: int| 0 <= k < d.len() implies is_digit(#[trigger] d[k]) by {
        assert(d[k] == s@[start + k]);
    }
    if over {
        None
    } else {
        Some(acc)
    }
}

/// Parses a key as a signed 64-bit integer.
pub fn to_number(x: &Vec<u8>) -> (r: Result<i64, MergeError>)
    ensures
        match parse_i64(x@) {
            Some(v) => r == Ok::<i64, MergeError>(v as i64),
            None => r == Err::<i64, MergeError>(MergeError::KeyNotNumber),
        },
{
    if x.len() > 0 && x[0] == 45u8 {
        assert(x@.skip(1) =~= x@.drop_first());
        match read_digits(x, 1, 9223372036854775808u64) {
            Some(v) => {
                if v == 9223372036854775808u64 {
                    Ok(i64::MIN)
                } else {
                    Ok(-(v as i64))
                }
            },
            None => Err(MergeError::KeyNotNumber),
        }
    } else if x.len() > 0 && x[0] == 43u8 {
        assert(x@.skip(1) =~= x@.drop_first());
        match read_digits(x, 1, 9223372036854775807u64) {
            Some(v) => Ok(v as i64),
            None => Err(MergeError::KeyNotNumber),
        }
    } else {
        assert(x@.skip(0) =~= x@);
        match read_digits(x, 0, 9223372036854775807u64) {
            Some(v) => Ok(v as i64),
            None => Err(MergeError::KeyNotNumber),
        }
    }
}

/// Compares two keys, byte-wise or, when `numeric`, as signed 64-bit integers.
pub fn compare_keys(a: &Vec<u8>, b: &Vec<u8>, numeric: bool) -> (r: Result<Ordering, MergeError>)
    ensures
        match key_cmp(a@, b@, numeric) {
            Some(c) => r == Ok::<Ordering, MergeError>(c),
            None => r == Err::<Ordering, MergeError>(MergeError::KeyNotNumber),
        },
{
    if !numeric {
        return Ok(compare_bytes(a, b));
    }
    proof {
        lemma_parse_i64_range(a@);
        lemma_parse_i64_range(b@);
    }
    let x = match to_number(a) {
        Ok(v) => v,
        Err(e) => return Err(e),
    };
    let y = match to_number(b) {
        Ok(v) => v,
        Err(e) => return Err(e),
    };
    if x < y {
        Ok(Ordering::Less)
    } else if x == y {
        Ok(Ordering::Equal)
    } else {
        Ok(Ordering::Greater)
    }
}

} // verus!
