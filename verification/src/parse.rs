//! The starting-value grammar.
//!
//! A starting value is the trimmed input read either as
//! `base^exponent-subtract` (the `-subtract` part optional, every part a
//! digit string) and evaluated exactly, or as a plain decimal numeral.
//! Either way the result must be strictly positive; everything else is
//! `InvalidInput`.

use vstd::prelude::*;

use crate::big::Big;
use crate::decimal::{
    all_digits, check_all_digits, dec_value, positive_decimal_value, trim, trim_spec,
};
use vstd::arithmetic::power::pow;

verus! {

/// Rejection of a starting value that no branch of the grammar accepts
/// with a positive result.
#[derive(Debug, Clone, Copy, PartialEq, Eq, Structural)]
pub enum ParseError {
    InvalidInput,
}

/// Index of the first occurrence of `b` in `s`, if any.
pub open spec fn find_byte(s: Seq<u8>, b: u8) -> Option<int>
    decreases s.len(),
{
    if s.len() == 0 {
        None
    } else if s[0] == b {
        Some(0)
    } else {
        match find_byte(s.drop_first(), b) {
            Some(i) => Some(i + 1),
            None => None,
        }
    }
}

/// Value of the power form `base ^ exponent - subtract`, once the three
/// digit strings are cut out of the input. The exponent must fit a `u32`,
/// the one machine bound the evaluator imposes; the result must be
/// positive.
pub open spec fn power_expr_value(bp: Seq<u8>, ep: Seq<u8>, mp: Option<Seq<u8>>) -> Option<
    nat,
> {
    let parts_ok = bp.len() > 0 && all_digits(bp) && ep.len() > 0 && all_digits(ep) && dec_value(
        ep,
    ) <= u32::MAX && (match mp {
        Some(ms) => ms.len() > 0 && all_digits(ms),
        None => true,
    });
    if parts_ok {
        let p = pow(dec_value(bp) as int, dec_value(ep) as nat);
        let m = match mp {
            Some(ms) => dec_value(ms) as int,
            None => 0,
        };
        if m < p {
            Some((p - m) as nat)
        } else {
            None
        }
    } else {
        None
    }
}

/// Value of a starting-value string: the trimmed input is split at the
/// first `^` and, after it, at the first `-`; without a `^` it is read as
/// a plain positive decimal numeral.
pub open spec fn expr_value(s: Seq<u8>) -> Option<nat> {
    let t = trim_spec(s);
    match find_byte(t, 94) {
        Some(i) => {
            let bp = t.subrange(0, i);
            let rest = t.subrange(i + 1, t.len() as int);
            match find_byte(rest, 45) {
                Some(j) => power_expr_value(
                    bp,
                    rest.subrange(0, j),
                    Some(rest.subrange(j + 1, rest.len() as int)),
                ),
                None => power_expr_value(bp, rest, None),
            }
        },
        None => positive_decimal_value(s),
    }
}

/// Scans for the first occurrence of a byte.
fn find_byte_at(s: &[u8], b: u8) -> (r: Option<usize>)
    ensures
        match r {
            Some(i) => 0 <= i < s@.len() && find_byte(s@, b) == Some(i as int),
            None => find_byte(s@, b) is None,
        },
{
    let n: usize = s.len();
    let mut i: usize = 0;
    proof {
        assert(s@.subrange(0, n as int) =~= s@);
    }
    while i < n
        invariant
            0 <= i <= n,
            n == s@.len(),
            find_byte(s@, b) == match find_byte(s@.subrange(i as int, n as int), b) {
                Some(k) => Some(k + i),
                None => None::<int>,
            },
        decreases n - i,
    {
        let c: u8 = *vstd::slice::slice_index_get(s, i);
        proof {
            let sub = s@.subrange(i as int, n as int);
            assert(sub[0] == s@[i as int]);
            assert(sub.drop_first() =~= s@.subrange(i as int + 1, n as int));
        }
        if c == b {
            return Some(i);
        }
        i = i + 1;
    }
    None
}

/// Reads a digit string as a `u32`, refusing values beyond `u32::MAX`.
fn parse_u32_digits(s: &[u8]) -> (r: Option<u32>)
    requires
        all_digits(s@),
    ensures
        match r {
            Some(v) => v == dec_value(s@),
            None => dec_value(s@) > u32::MAX,
        },
{
    let n: usize = s.len();
    let mut acc: u32 = 0;
    let mut i: usize = 0;
    proof {
        assert(s@.subrange(0, 0) =~= Seq::<u8>::empty());
    }
    while i < n
        invariant
            0 <= i <= n,
            n == s@.len(),
            all_digits(s@),
            acc == dec_value(s@.subrange(0, i as int)),
        decreases n - i,
    {
        let d: u8 = *vstd::slice::slice_index_get(s, i);
        let next: u64 = acc as u64 * 10 + (d - 48) as u64;
        proof {
            let p = s@.subrange(0, i as int);
            let q = s@.subrange(0, i as int + 1);
            assert(q.drop_last() =~= p);
            assert(q.last() == s@[i as int]);
        }
        if next > 0xFFFF_FFFF {
            proof {
                crate::decimal::lemma_dec_value_prefix_le(s@, i as int + 1, n as int);
                assert(s@.subrange(0, n as int) =~= s@);
            }
            return None;
        }
        acc = next as u32;
        i = i + 1;
    }
    proof {
        assert(s@.subrange(0, n as int) =~= s@);
    }
    Some(acc)
}

/// Reads a trimmed line as a positive decimal numeral.
pub fn parse_positive_decimal(line: &[u8]) -> (r: Option<Big>)
    ensures
        match r {
            Some(b) => b.wf() && b.value() > 0 && positive_decimal_value(line@) == Some(
                b.value(),
            ),
            None => positive_decimal_value(line@) is None,
        },
{
    let t = trim(line);
    let ts = t.as_slice();
    if ts.len() == 0 || !check_all_digits(ts) {
        return None;
    }
    let v = Big::from_decimal_digits(ts);
    if v.is_zero() {
        None
    } else {
        Some(v)
    }
}

/// Parses a starting value, either `base^exponent[-subtract]` or a plain
/// decimal numeral, to its exact positive value.
pub fn parse(input: &[u8]) -> (r: Result<Big, ParseError>)
    ensures
        match r {
            Ok(b) => b.wf() && b.value() > 0 && expr_value(input@) == Some(b.value()),
            Err(e) => expr_value(input@) is None && e == ParseError::InvalidInput,
        },
{
    let t = trim(input);
    let ts = t.as_slice();
    let caret = find_byte_at(ts, 94);
    match caret {
        Some(i) => {
            let bp = vstd::slice::slice_subrange(ts, 0, i);
            let rest = vstd::slice::slice_subrange(ts, i + 1, ts.len());
            let dash = find_byte_at(rest, 45);
            let (ep, mp): (&[u8], Option<&[u8]>) = match dash {
                Some(j) => (
                    vstd::slice::slice_subrange(rest, 0, j),
                    Some(vstd::slice::slice_subrange(rest, j + 1, rest.len())),
                ),
                None => (rest, None),
            };
            if bp.len() == 0 || !check_all_digits(bp) {
                return Err(ParseError::InvalidInput);
            }
            if ep.len() == 0 || !check_all_digits(ep) {
                return Err(ParseError::InvalidInput);
            }
            let m_big: Big = match mp {
                Some(ms) => {
                    if ms.len() == 0 || !check_all_digits(ms) {
                        return Err(ParseError::InvalidInput);
                    }
                    Big::from_decimal_digits(ms)
                },
                None => Big::zero(),
            };
            let e: u32 = match parse_u32_digits(ep) {
                Some(e) => e,
                None => {
                    return Err(ParseError::InvalidInput);
                },
            };
            let base = Big::from_decimal_digits(bp);
            let p = base.pow_u32(e);
            if m_big.lt(&p) {
                Ok(p.minus(&m_big))
            } else {
                Err(ParseError::InvalidInput)
            }
        },
        None => {
            match parse_positive_decimal(input) {
                Some(b) => Ok(b),
                None => Err(ParseError::InvalidInput),
            }
        },
    }
}

} // verus!
