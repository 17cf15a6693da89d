//! Arbitrary-precision non-negative integers.
//!
//! A value is held as base-2^32 limbs, least significant first, with no
//! trailing zero limb, which is exactly the digit representation that
//! `num_bigint::BigUint` exchanges through `from_slice` and `to_u32_digits`.
//! Structural operations (parity, equality with fixed small values,
//! duplication) are verified directly on the limbs; the ring operations are
//! delegated to `num_bigint` behind contracts stated over the mathematical
//! value of the limbs.

use vstd::prelude::*;

use crate::decimal::{all_digits, dec_rep, dec_value};
use vstd::arithmetic::div_mod::lemma_mod_multiples_vanish;
use vstd::arithmetic::power::pow;

verus! {

/// Mathematical value of a little-endian base-2^32 limb string.
pub open spec fn limbs_value(s: Seq<u32>) -> nat
    decreases s.len(),
{
    if s.len() == 0 {
        0
    } else {
        (s[0] + limbs_value(s.drop_first()) * 0x1_0000_0000) as nat
    }
}

/// An arbitrary-precision non-negative integer.
#[derive(Debug, PartialEq, Eq)]
pub struct Big {
    limbs: Vec<u32>,
}

/// A non-empty canonical limb string is worth at least 1.
proof fn lemma_limbs_value_pos(s: Seq<u32>)
    requires
        s.len() > 0,
        s.last() != 0,
    ensures
        limbs_value(s) >= 1,
    decreases s.len(),
{
    if s.len() == 1 {
        assert(limbs_value(s) == (s[0] + limbs_value(s.drop_first()) * 0x1_0000_0000) as nat);
        assert(s.drop_first().len() == 0);
        assert(limbs_value(s) == s[0]);
    } else {
        let rest = s.drop_first();
        assert(rest.last() == s.last());
        lemma_limbs_value_pos(rest);
        assert(limbs_value(rest) * 0x1_0000_0000 >= 0x1_0000_0000) by (nonlinear_arith)
            requires
                limbs_value(rest) >= 1,
        ;
    }
}

/// With two or more canonical limbs the value reaches the base.
proof fn lemma_limbs_value_ge_base(s: Seq<u32>)
    requires
        s.len() >= 2,
        s.last() != 0,
    ensures
        limbs_value(s) >= 0x1_0000_0000,
{
    let rest = s.drop_first();
    assert(rest.last() == s.last());
    lemma_limbs_value_pos(rest);
    assert(limbs_value(rest) * 0x1_0000_0000 >= 0x1_0000_0000) by (nonlinear_arith)
        requires
            limbs_value(rest) >= 1,
    ;
}

/// The parity of a limb string is the parity of its lowest limb.
proof fn lemma_limbs_value_parity(s: Seq<u32>)
    requires
        s.len() > 0,
    ensures
        limbs_value(s) % 2 == s[0] % 2,
{
    let rest_val = limbs_value(s.drop_first());
    assert(limbs_value(s) == s[0] + rest_val * 0x1_0000_0000);
    assert(rest_val * 0x1_0000_0000 == 2 * (rest_val * 0x8000_0000)) by (nonlinear_arith);
    lemma_mod_multiples_vanish((rest_val * 0x8000_0000) as int, s[0] as int, 2);
}

impl Big {
    /// The mathematical value this limb string denotes.
    pub closed spec fn value(&self) -> nat {
        limbs_value(self.limbs@)
    }

    /// Canonical form: no trailing zero limb.
    pub closed spec fn wf(&self) -> bool {
        self.limbs@.len() == 0 || self.limbs@.last() != 0
    }

    /// The value zero.
    pub fn zero() -> (r: Big)
        ensures
            r.wf(),
            r.value() == 0,
    {
        Big { limbs: Vec::new() }
    }

    /// Builds the value of a machine integer.
    pub fn from_u64(v: u64) -> (r: Big)
        ensures
            r.wf(),
            r.value() == v,
    {
        let lo: u32 = (v % 0x1_0000_0000) as u32;
        let hi: u32 = (v / 0x1_0000_0000) as u32;
        if hi == 0 {
            if lo == 0 {
                Big { limbs: Vec::new() }
            } else {
                let r = Big { limbs: vec![lo] };
                proof {
                    assert(r.limbs@.drop_first() =~= Seq::<u32>::empty());
                    assert(limbs_value(Seq::<u32>::empty()) == 0);
                    assert(r.value() == lo);
                }
                r
            }
        } else {
            let r = Big { limbs: vec![lo, hi] };
            proof {
                let s = r.limbs@;
                let rest = s.drop_first();
                assert(rest =~= seq![hi]);
                assert(rest.drop_first() =~= Seq::<u32>::empty());
                assert(limbs_value(Seq::<u32>::empty()) == 0);
                assert(limbs_value(rest) == hi);
                assert(r.value() == lo + hi * 0x1_0000_0000);
                assert(v == 0x1_0000_0000 * (v / 0x1_0000_0000) + v % 0x1_0000_0000) by {
                    vstd::arithmetic::div_mod::lemma_fundamental_div_mod(
                        v as int,
                        0x1_0000_0000,
                    );
                }
            }
            r
        }
    }

    /// An identical copy.
    pub fn dup(&self) -> (r: Big)
        ensures
            r.wf() == self.wf(),
            r.value() == self.value(),
    {
        let limbs = self.limbs.clone();
        proof {
            assert(limbs@ =~= self.limbs@);
        }
        Big { limbs }
    }

    /// Parity test, done on the lowest limb: the base is even.
    pub fn is_even(&self) -> (r: bool)
        ensures
            r == (self.value() % 2 == 0),
    {
        if self.limbs.len() == 0 {
            true
        } else {
            proof {
                lemma_limbs_value_parity(self.limbs@);
            }
            self.limbs[0] % 2 == 0
        }
    }

    /// Tests for the value zero.
    pub fn is_zero(&self) -> (r: bool)
        requires
            self.wf(),
        ensures
            r == (self.value() == 0),
    {
        proof {
            if self.limbs@.len() > 0 {
                lemma_limbs_value_pos(self.limbs@);
            }
        }
        self.limbs.len() == 0
    }

    /// Tests for the value one: in canonical form, the single limb 1.
    pub fn is_one(&self) -> (r: bool)
        requires
            self.wf(),
        ensures
            r == (self.value() == 1),
    {
        proof {
            let s = self.limbs@;
            if s.len() == 1 {
                assert(s.drop_first() =~= Seq::<u32>::empty());
                assert(limbs_value(Seq::<u32>::empty()) == 0);
                assert(self.value() == s[0]);
            } else if s.len() >= 2 {
                lemma_limbs_value_ge_base(s);
            }
        }
        self.limbs.len() == 1 && self.limbs[0] == 1
    }

    /// Exact halving. Relies on `num_bigint`'s `Div<u32>` for `BigUint`,
    /// which performs exact truncating division.
    #[verifier::external_body]
    pub fn div2(&self) -> (r: Big)
        ensures
            r.wf(),
            r.value() == self.value() / 2,
    {
        let q = num_bigint::BigUint::from_slice(self.limbs.as_slice()) / 2u32;
        Big { limbs: q.to_u32_digits() }
    }

    /// Exact product with a machine word. Relies on `num_bigint`'s
    /// `Mul<u32>` for `BigUint`.
    #[verifier::external_body]
    pub fn times_u32(&self, k: u32) -> (r: Big)
        ensures
            r.wf(),
            r.value() == self.value() * k,
    {
        let p = num_bigint::BigUint::from_slice(self.limbs.as_slice()) * k;
        Big { limbs: p.to_u32_digits() }
    }

    /// Exact sum with a machine word. Relies on `num_bigint`'s `Add<u32>`
    /// for `BigUint`.
    #[verifier::external_body]
    pub fn plus_u32(&self, k: u32) -> (r: Big)
        ensures
            r.wf(),
            r.value() == self.value() + k,
    {
        let t = num_bigint::BigUint::from_slice(self.limbs.as_slice()) + k;
        Big { limbs: t.to_u32_digits() }
    }

    /// Exact exponentiation. Relies on `num_bigint::BigUint::pow`, which
    /// returns 1 for exponent 0 (also for base 0) and the exact power
    /// otherwise.
    #[verifier::external_body]
    pub fn pow_u32(&self, e: u32) -> (r: Big)
        ensures
            r.wf(),
            r.value() == pow(self.value() as int, e as nat),
    {
        let p = num_bigint::BigUint::from_slice(self.limbs.as_slice()).pow(e);
        Big { limbs: p.to_u32_digits() }
    }

    /// Exact difference. Relies on `Sub` for `num_bigint::BigUint`, which
    /// panics when the subtrahend is larger; the precondition rules that
    /// out.
    #[verifier::external_body]
    pub fn minus(&self, other: &Big) -> (r: Big)
        requires
            other.value() <= self.value(),
        ensures
            r.wf(),
            r.value() == self.value() - other.value(),
    {
        let d = num_bigint::BigUint::from_slice(self.limbs.as_slice())
            - num_bigint::BigUint::from_slice(other.limbs.as_slice());
        Big { limbs: d.to_u32_digits() }
    }

    /// Strict order on the values. Relies on `Ord` for
    /// `num_bigint::BigUint`, which orders by numeric value.
    #[verifier::external_body]
    pub fn lt(&self, other: &Big) -> (r: bool)
        ensures
            r == (self.value() < other.value()),
    {
        num_bigint::BigUint::from_slice(self.limbs.as_slice())
            < num_bigint::BigUint::from_slice(other.limbs.as_slice())
    }

    /// The canonical decimal numeral of the value. Relies on
    /// `num_bigint::BigUint::to_str_radix` with radix 10: ASCII digits, no
    /// leading zeros, `"0"` for zero.
    #[verifier::external_body]
    pub fn to_decimal(&self) -> (r: Vec<u8>)
        ensures
            r@ == dec_rep(self.value()),
    {
        num_bigint::BigUint::from_slice(self.limbs.as_slice()).to_str_radix(10).into_bytes()
    }

    /// Reads a digit string as a base-10 numeral.
    pub fn from_decimal_digits(s: &[u8]) -> (r: Big)
        requires
            all_digits(s@),
        ensures
            r.wf(),
            r.value() == dec_value(s@),
    {
        let n: usize = s.len();
        let mut acc = Big::zero();
        let mut i: usize = 0;
        proof {
            assert(s@.subrange(0, 0) =~= Seq::<u8>::empty());
        }
        while i < n
            invariant
                0 <= i <= n,
                n == s@.len(),
                all_digits(s@),
                acc.wf(),
                acc.value() == dec_value(s@.subrange(0, i as int)),
            decreases n - i,
        {
            let d: u8 = *vstd::slice::slice_index_get(s, i);
            acc = acc.times_u32(10).plus_u32((d - 48) as u32);
            proof {
                let p = s@.subrange(0, i as int);
                let q = s@.subrange(0, i as int + 1);
                assert(q.drop_last() =~= p);
                assert(q.last() == s@[i as int]);
            }
            i = i + 1;
        }
        proof {
            assert(s@.subrange(0, n as int) =~= s@);
        }
        acc
    }
}

} // verus!
