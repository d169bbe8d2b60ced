//! The base prime field.
//!
//! All committed polynomial coefficients and all verifier challenges live in
//! the Goldilocks field of order `P = 2^64 - 2^32 + 1`.  The protocol logic
//! only needs ring operations, so this module provides addition, subtraction
//! and multiplication modulo `P`, together with the spec-level functions
//! (`fadd`, `fsub`, `fmul`, `fpow`, `fpow2`) that every contract in the crate
//! is stated over.

use vstd::prelude::*;
use vstd::arithmetic::div_mod::{
    lemma_add_mod_noop, lemma_mod_sub_multiples_vanish, lemma_small_mod,
};
use vstd::arithmetic::mul::lemma_mul_upper_bound;
use vstd::arithmetic::power2::{lemma2_to64, lemma_pow2_unfold, pow2};

verus! {

/// The field order: the Goldilocks prime `2^64 - 2^32 + 1`.
pub const P: u64 = 0xFFFF_FFFF_0000_0001;

/// `x` is a canonical field representative.
pub open spec fn in_field(x: int) -> bool {
    0 <= x < P
}

/// Field addition on canonical representatives.
pub open spec fn fadd(a: int, b: int) -> int {
    (a + b) % (P as int)
}

/// Field subtraction on canonical representatives.
pub open spec fn fsub(a: int, b: int) -> int {
    (a - b) % (P as int)
}

/// Field multiplication on canonical representatives.
pub open spec fn fmul(a: int, b: int) -> int {
    (a * b) % (P as int)
}

/// Field exponentiation: `b^e` reduced modulo `P`.
pub open spec fn fpow(b: int, e: nat) -> int
    decreases e,
{
    if e == 0 {
        1
    } else {
        fmul(b, fpow(b, (e - 1) as nat))
    }
}

/// The field embedding of `2^e`.
pub open spec fn fpow2(e: nat) -> int {
    pow2(e) as int % (P as int)
}

/// An element of the field.  `wf` states that the representative is
/// canonical; every operation requires and preserves it.
#[derive(Clone, Copy, Debug, PartialEq, Eq, Structural)]
pub struct Fp {
    pub v: u64,
}

impl View for Fp {
    type V = int;

    open spec fn view(&self) -> int {
        self.v as int
    }
}

/// The canonical representatives of a sequence of field elements.
pub open spec fn vals(s: Seq<Fp>) -> Seq<int> {
    s.map_values(|f: Fp| f@)
}

/// Every element of the sequence is a canonical field element.
pub open spec fn all_wf(s: Seq<Fp>) -> bool {
    forall|i: int| 0 <= i < s.len() ==> (#[trigger] s[i]).wf()
}

impl Fp {
    /// The representative is canonical.
    pub open spec fn wf(self) -> bool {
        self.v < P
    }

    /// The additive identity.
    pub fn zero() -> (r: Fp)
        ensures
            r.wf(),
            r@ == 0,
    {
        Fp { v: 0 }
    }

    /// The multiplicative identity.
    pub fn one() -> (r: Fp)
        ensures
            r.wf(),
            r@ == 1,
    {
        Fp { v: 1 }
    }

    /// The canonical embedding of an integer into the field.
    pub fn from_u64(x: u64) -> (r: Fp)
        ensures
            r.wf(),
            r@ == (x as int) % (P as int),
    {
        Fp { v: x % P }
    }

    /// Field addition.
    pub fn add(self, rhs: Fp) -> (r: Fp)
        requires
            self.wf(),
            rhs.wf(),
        ensures
            r.wf(),
            r@ == fadd(self@, rhs@),
    {
        let s: u64 = if rhs.v != 0 && self.v >= P - rhs.v {
            proof {
                lemma_mod_sub_multiples_vanish(self@ + rhs@ - P, P as int);
                lemma_small_mod((self@ + rhs@ - P) as nat, P as nat);
            }
            self.v - (P - rhs.v)
        } else {
            proof {
                lemma_small_mod((self@ + rhs@) as nat, P as nat);
            }
            self.v + rhs.v
        };
        Fp { v: s }
    }

    /// Field subtraction.
    pub fn sub(self, rhs: Fp) -> (r: Fp)
        requires
            self.wf(),
            rhs.wf(),
        ensures
            r.wf(),
            r@ == fsub(self@, rhs@),
    {
        let s: u64 = if self.v >= rhs.v {
            proof {
                lemma_small_mod((self@ - rhs@) as nat, P as nat);
            }
            self.v - rhs.v
        } else {
            proof {
                lemma_mod_sub_multiples_vanish(self@ - rhs@ + P, P as int);
                lemma_small_mod((self@ - rhs@ + P) as nat, P as nat);
            }
            self.v + (P - rhs.v)
        };
        Fp { v: s }
    }

    /// Field multiplication.
    pub fn mul(self, rhs: Fp) -> (r: Fp)
        requires
            self.wf(),
            rhs.wf(),
        ensures
            r.wf(),
            r@ == fmul(self@, rhs@),
    {
        proof {
            lemma_mul_upper_bound(self@, 0xFFFF_FFFF_FFFF_FFFF as int, rhs@, 0xFFFF_FFFF_FFFF_FFFF as int);
        }
        let prod: u128 = (self.v as u128) * (rhs.v as u128);
        let m: u128 = prod % (P as u128);
        Fp { v: m as u64 }
    }

    /// Field exponentiation by repeated multiplication.
    pub fn pow(self, e: u32) -> (r: Fp)
        requires
            self.wf(),
        ensures
            r.wf(),
            r@ == fpow(self@, e as nat),
    {
        let mut acc: Fp = Fp::one();
        let mut i: u32 = 0;
        while i < e
            invariant
                i <= e,
                acc.wf(),
                self.wf(),
                acc@ == fpow(self@, i as nat),
            decreases e - i,
        {
            proof {
                lemma_fpow_unfold_top(self@, (i + 1) as nat);
            }
            acc = self.mul(acc);
            i = i + 1;
        }
        acc
    }

    /// The field embedding of `2^e`, by repeated doubling.
    pub fn two_pow(e: usize) -> (r: Fp)
        ensures
            r.wf(),
            r@ == fpow2(e as nat),
    {
        let mut acc: Fp = Fp::one();
        let mut i: usize = 0;
        assert(acc@ == fpow2(0)) by {
            lemma2_to64();
            lemma_small_mod(1nat, P as nat);
        }
        while i < e
            invariant
                i <= e,
                acc.wf(),
                acc@ == fpow2(i as nat),
            decreases e - i,
        {
            proof {
                lemma_pow2_unfold((i + 1) as nat);
                lemma_add_mod_noop(pow2(i as nat) as int, pow2(i as nat) as int, P as int);
            }
            acc = acc.add(acc);
            i = i + 1;
        }
        acc
    }
}

/// Peeling one factor off the top of `fpow`: `b^(e+1) == b * b^e`.
pub proof fn lemma_fpow_unfold_top(b: int, e: nat)
    requires
        e > 0,
    ensures
        fpow(b, e) == fmul(b, fpow(b, (e - 1) as nat)),
{
}

/// Field multiplication associates, also after intermediate reduction.
pub proof fn lemma_fmul_assoc(a: int, b: int, c: int)
    ensures
        fmul(fmul(a, b), c) == fmul(a, fmul(b, c)),
{
    vstd::arithmetic::div_mod::lemma_mul_mod_noop_left(a * b, c, P as int);
    vstd::arithmetic::div_mod::lemma_mul_mod_noop_right(a, b * c, P as int);
    assert((a * b) * c == a * (b * c)) by (nonlinear_arith);
}

/// Powers of two multiply by adding exponents, also after reduction.
pub proof fn lemma_fpow2_adds(a: nat, b: nat)
    ensures
        fpow2(a + b) == fmul(fpow2(a), fpow2(b)),
{
    vstd::arithmetic::power2::lemma_pow2_adds(a, b);
    vstd::arithmetic::div_mod::lemma_mul_mod_noop(pow2(a) as int, pow2(b) as int, P as int);
}

/// Iterated field multiplication by two agrees with the reduced power of
/// two.
pub proof fn lemma_fpow_two(e: nat)
    ensures
        fpow(2, e) == fpow2(e),
    decreases e,
{
    if e == 0 {
        lemma2_to64();
        lemma_small_mod(1nat, P as nat);
    } else {
        lemma_fpow_two((e - 1) as nat);
        lemma_pow2_unfold(e);
        vstd::arithmetic::div_mod::lemma_mul_mod_noop_right(2int, pow2((e - 1) as nat) as int, P as int);
    }
}

} // verus!
