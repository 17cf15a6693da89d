//! Byte-level model of the persisted number format: ASCII decimal digits,
//! optionally surrounded by whitespace, one value per line.

use vstd::prelude::*;

verus! {

/// ASCII whitespace as far as this format is concerned: space, tab, LF, CR.
pub open spec fn is_ws_byte(b: u8) -> bool {
    b == 32 || b == 9 || b == 10 || b == 13
}

/// ASCII decimal digit `'0'..='9'`.
pub open spec fn is_digit_byte(b: u8) -> bool {
    48 <= b <= 57
}

/// Numeric value of a digit byte.
pub open spec fn digit_val(b: u8) -> nat
    recommends
        is_digit_byte(b),
{
    (b - 48) as nat
}

/// Every byte of `s` is a decimal digit.
pub open spec fn all_digits(s: Seq<u8>) -> bool {
    forall|i: int| 0 <= i < s.len() ==> is_digit_byte(s[i])
}

/// Value of a digit string read as a base-10 numeral (0 for the empty string).
pub open spec fn dec_value(s: Seq<u8>) -> nat
    decreases s.len(),
{
    if s.len() == 0 {
        0
    } else {
        dec_value(s.drop_last()) * 10 + digit_val(s.last())
    }
}

/// The canonical decimal numeral of `n`: no leading zeros, `"0"` for zero.
pub open spec fn dec_rep(n: nat) -> Seq<u8>
    decreases n,
{
    if n < 10 {
        seq![(48 + n) as u8]
    } else {
        dec_rep(n / 10).push((48 + n % 10) as u8)
    }
}

/// `s` without its leading whitespace bytes.
pub open spec fn trim_front(s: Seq<u8>) -> Seq<u8>
    decreases s.len(),
{
    if s.len() > 0 && is_ws_byte(s[0]) {
        trim_front(s.drop_first())
    } else {
        s
    }
}

/// `s` without its trailing whitespace bytes.
pub open spec fn trim_back(s: Seq<u8>) -> Seq<u8>
    decreases s.len(),
{
    if s.len() > 0 && is_ws_byte(s.last()) {
        trim_back(s.drop_last())
    } else {
        s
    }
}

/// `s` without leading and trailing whitespace.
pub open spec fn trim_spec(s: Seq<u8>) -> Seq<u8> {
    trim_back(trim_front(s))
}

/// A non-empty digit string denoting a strictly positive value.
pub open spec fn is_positive_decimal(s: Seq<u8>) -> bool {
    s.len() > 0 && all_digits(s) && dec_value(s) > 0
}

/// What a persisted line is worth: its trimmed body read as a decimal
/// numeral, accepted only when that is a positive value.
pub open spec fn positive_decimal_value(s: Seq<u8>) -> Option<nat> {
    let t = trim_spec(s);
    if is_positive_decimal(t) {
        Some(dec_value(t))
    } else {
        None
    }
}

/// Whitespace test, executable form of `is_ws_byte`.
pub fn byte_is_ws(b: u8) -> (r: bool)
    ensures
        r == is_ws_byte(b),
{
    b == 32 || b == 9 || b == 10 || b == 13
}

/// Digit test, executable form of `is_digit_byte`.
pub fn byte_is_digit(b: u8) -> (r: bool)
    ensures
        r == is_digit_byte(b),
{
    48 <= b && b <= 57
}

/// Strips leading and trailing whitespace from a byte string.
pub fn trim(s: &[u8]) -> (r: Vec<u8>)
    ensures
        r@ == trim_spec(s@),
{
    let n: usize = s.len();
    proof {
        assert(s@.subrange(0, n as int) =~= s@);
    }
    let mut lo: usize = 0;
    while lo < n && byte_is_ws(*vstd::slice::slice_index_get(s, lo))
        invariant
            0 <= lo <= n,
            n == s@.len(),
            trim_front(s@) == trim_front(s@.subrange(lo as int, n as int)),
        decreases n - lo,
    {
        proof {
            let sub = s@.subrange(lo as int, n as int);
            assert(sub.drop_first() =~= s@.subrange(lo as int + 1, n as int));
        }
        lo = lo + 1;
    }
    proof {
        let sub = s@.subrange(lo as int, n as int);
        assert(trim_front(s@) == sub);
    }
    let mut hi: usize = n;
    while hi > lo && byte_is_ws(*vstd::slice::slice_index_get(s, hi - 1))
        invariant
            lo <= hi <= n,
            n == s@.len(),
            trim_front(s@) == s@.subrange(lo as int, n as int),
            trim_back(s@.subrange(lo as int, n as int)) == trim_back(
                s@.subrange(lo as int, hi as int),
            ),
        decreases hi,
    {
        proof {
            let sub = s@.subrange(lo as int, hi as int);
            assert(sub.drop_last() =~= s@.subrange(lo as int, hi as int - 1));
        }
        hi = hi - 1;
    }
    proof {
        let sub = s@.subrange(lo as int, hi as int);
        assert(trim_back(sub) == sub);
    }
    vstd::slice::slice_to_vec(vstd::slice::slice_subrange(s, lo, hi))
}

/// Tests whether every byte of `s` is a decimal digit.
pub fn check_all_digits(s: &[u8]) -> (r: bool)
    ensures
        r == all_digits(s@),
{
    let n: usize = s.len();
    let mut i: usize = 0;
    while i < n
        invariant
            0 <= i <= n,
            n == s@.len(),
            forall|j: int| 0 <= j < i ==> is_digit_byte(s@[j]),
        decreases n - i,
    {
        if !byte_is_digit(*vstd::slice::slice_index_get(s, i)) {
            return false;
        }
        i = i + 1;
    }
    true
}

/// Trimming a pure digit string leaves it unchanged.
pub proof fn lemma_trim_digits_identity(s: Seq<u8>)
    requires
        all_digits(s),
    ensures
        trim_spec(s) == s,
{
    if s.len() > 0 {
        assert(is_digit_byte(s[0]));
        assert(!is_ws_byte(s[0]));
        assert(trim_front(s) == s);
        assert(is_digit_byte(s.last()));
        assert(!is_ws_byte(s.last()));
        assert(trim_back(s) == s);
    }
}

/// The canonical numeral of any value is a non-empty digit string.
pub proof fn lemma_dec_rep_digits(n: nat)
    ensures
        dec_rep(n).len() > 0,
        all_digits(dec_rep(n)),
    decreases n,
{
    if n < 10 {
        assert(dec_rep(n) =~= seq![(48 + n) as u8]);
        assert(is_digit_byte((48 + n) as u8));
    } else {
        lemma_dec_rep_digits(n / 10);
        assert(n % 10 < 10);
        assert(is_digit_byte((48 + n % 10) as u8));
        assert forall|i: int| 0 <= i < dec_rep(n).len() implies is_digit_byte(
            dec_rep(n)[i],
        ) by {
            if i < dec_rep(n / 10).len() {
                assert(dec_rep(n)[i] == dec_rep(n / 10)[i]);
            }
        }
    }
}

/// Reading the canonical numeral of `n` back yields `n`.
pub proof fn lemma_dec_rep_value(n: nat)
    ensures
        dec_value(dec_rep(n)) == n,
    decreases n,
{
    if n < 10 {
        let s = dec_rep(n);
        assert(s.drop_last() =~= Seq::<u8>::empty());
        assert(dec_value(Seq::<u8>::empty()) == 0);
        assert(dec_value(s) == 0 * 10 + digit_val(s.last()));
    } else {
        lemma_dec_rep_value(n / 10);
        let s = dec_rep(n);
        assert(s.drop_last() =~= dec_rep(n / 10));
        assert(s.last() == (48 + n % 10) as u8);
        assert(dec_value(s) == (n / 10) * 10 + n % 10);
        assert((n / 10) * 10 + n % 10 == n) by (nonlinear_arith);
    }
}

/// Extending a digit string on the right never decreases its value.
pub proof fn lemma_dec_value_prefix_le(s: Seq<u8>, i: int, j: int)
    requires
        0 <= i <= j <= s.len(),
    ensures
        dec_value(s.subrange(0, i)) <= dec_value(s.subrange(0, j)),
    decreases j - i,
{
    if i < j {
        lemma_dec_value_prefix_le(s, i, j - 1);
        let p = s.subrange(0, j - 1);
        let q = s.subrange(0, j);
        assert(q.drop_last() =~= p);
        assert(dec_value(q) == dec_value(p) * 10 + digit_val(q.last()));
        assert(dec_value(p) * 10 >= dec_value(p)) by (nonlinear_arith);
    }
}

} // verus!
