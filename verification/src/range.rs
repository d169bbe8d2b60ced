//! Decomposable range-table algebra.
//!
//! A range lookup over `NUM_BITS` bits with limb size `LIMB_BITS` is split
//! into `ceil(NUM_BITS / LIMB_BITS)` chunks.  All full chunks are served by
//! [`FullLimbSubtable`]; when `NUM_BITS` is not a multiple of `LIMB_BITS`
//! the short trailing chunk is served by [`ReminderSubtable`].

use vstd::prelude::*;
use crate::field::{
    all_wf, fadd, fmul, fpow2, fsub, lemma_fmul_assoc, lemma_fpow2_adds, vals, Fp, P,
};
use crate::terms::{
    eval_expr, id_mle, lemma_sum_upto_prefix, lemma_wf_list_prefix, prod_upto, sum_upto, wf_expr,
    wf_list,
    MultilinearPolyTerms, PolyExpr,
};
use crate::field::fpow;
use vstd::arithmetic::div_mod::{lemma_mod_bound, lemma_small_mod};
use vstd::arithmetic::power2::{
    lemma2_to64, lemma2_to64_rest, lemma_pow2_strictly_increases, pow2,
};

verus! {

/// A power of two that fits a machine word is at most `2^63`, hence below
/// the field order.
proof fn lemma_pow2_usize_bound(k: nat)
    requires
        pow2(k) <= usize::MAX,
    ensures
        k <= 63,
        pow2(k) <= pow2(63),
        pow2(k) < P,
{
    lemma2_to64();
    lemma2_to64_rest();
    if k >= 64 {
        if k > 64 {
            lemma_pow2_strictly_increases(64, k);
        }
        assert(false);
    }
    if k < 63 {
        lemma_pow2_strictly_increases(k, 63);
    }
}

/// `Π (1 - s[i])`, reduced modulo the field order: the factor that makes an
/// embedded low-dimensional table vanish outside its own subcube.
pub open spec fn vanish(s: Seq<int>) -> int
    decreases s.len(),
{
    if s.len() == 0 {
        1
    } else {
        fmul(vanish(s.drop_last()), fsub(1, s.last()))
    }
}

/// The subtable serving every full `LIMB_BITS`-wide chunk: the identity
/// table on `2^LIMB_BITS` entries.
#[derive(Clone, Copy, Debug)]
pub struct FullLimbSubtable<const LIMB_BITS: usize>;

impl<const LIMB_BITS: usize> FullLimbSubtable<LIMB_BITS> {
    /// The dense table: `0, 1, ..., m - 1` as field elements.  `m` must be
    /// `2^LIMB_BITS` for the limb size served.
    pub fn materialize(&self, m: usize) -> (r: Vec<Fp>)
        requires
            m as nat == pow2(LIMB_BITS as nat),
        ensures
            r@.len() == m,
            forall|i: int| 0 <= i < m ==> (#[trigger] r@[i]).wf() && r@[i]@ == i,
    {
        proof {
            lemma_pow2_usize_bound(LIMB_BITS as nat);
        }
        let mut r: Vec<Fp> = Vec::new();
        let mut x: usize = 0;
        while x < m
            invariant
                x <= m,
                m < P,
                r@.len() == x,
                forall|i: int| 0 <= i < x ==> (#[trigger] r@[i]).wf() && r@[i]@ == i,
            decreases m - x,
        {
            proof {
                lemma_small_mod(x as nat, P as nat);
            }
            r.push(Fp::from_u64(x as u64));
            x = x + 1;
        }
        r
    }

    /// The multilinear extension of the identity table: `Σᵢ 2^i · point[i]`.
    pub fn evaluate_mle(&self, point: &[Fp]) -> (r: Fp)
        requires
            all_wf(point@),
        ensures
            r.wf(),
            r@ == id_mle(vals(point@)),
    {
        crate::terms::id_poly_eval(point)
    }
}

/// The subtable serving a short trailing chunk: the identity table on
/// `2^(NUM_BITS mod LIMB_BITS)` entries, embedded in a `LIMB_BITS`-variable
/// cube.
#[derive(Clone, Copy, Debug)]
pub struct ReminderSubtable<const NUM_BITS: usize, const LIMB_BITS: usize>;

impl<const NUM_BITS: usize, const LIMB_BITS: usize> ReminderSubtable<NUM_BITS, LIMB_BITS> {
    /// The dense table: `0, 1, ..., 2^r - 1` where `r = NUM_BITS mod
    /// LIMB_BITS`.  The tail is not padded to `m` entries.
    pub fn materialize(&self, m: usize) -> (r: Vec<Fp>)
        requires
            LIMB_BITS >= 1,
            m as nat == pow2(LIMB_BITS as nat),
            m <= usize::MAX,
        ensures
            r@.len() == pow2((NUM_BITS % LIMB_BITS) as nat),
            forall|i: int| 0 <= i < r@.len() ==> (#[trigger] r@[i]).wf() && r@[i]@ == i,
    {
        let rem: usize = NUM_BITS % LIMB_BITS;
        proof {
            lemma_pow2_usize_bound(LIMB_BITS as nat);
            lemma_pow2_strictly_increases(rem as nat, LIMB_BITS as nat);
        }
        let len: usize = crate::util::pow2_usize(rem);
        let mut r: Vec<Fp> = Vec::new();
        let mut x: usize = 0;
        while x < len
            invariant
                x <= len,
                len < P,
                r@.len() == x,
                forall|i: int| 0 <= i < x ==> (#[trigger] r@[i]).wf() && r@[i]@ == i,
            decreases len - x,
        {
            proof {
                lemma_small_mod(x as nat, P as nat);
            }
            r.push(Fp::from_u64(x as u64));
            x = x + 1;
        }
        r
    }

    /// The multilinear extension of the embedded table: the partial sum
    /// `Σ_{i<r} 2^i · point[i]` times the vanishing factor `Π_{i≥r} (1 -
    /// point[i])`.
    pub fn evaluate_mle(&self, point: &[Fp]) -> (r: Fp)
        requires
            LIMB_BITS >= 1,
            point@.len() == LIMB_BITS,
            all_wf(point@),
        ensures
            r.wf(),
            r@ == fmul(
                id_mle(vals(point@).take((NUM_BITS % LIMB_BITS) as int)),
                vanish(vals(point@).skip((NUM_BITS % LIMB_BITS) as int)),
            ),
    {
        let rem: usize = NUM_BITS % LIMB_BITS;
        let ghost s: Seq<int> = vals(point@);
        let mut acc: Fp = Fp::zero();
        let mut i: usize = 0;
        while i < rem
            invariant
                i <= rem,
                rem < LIMB_BITS,
                point@.len() == LIMB_BITS,
                all_wf(point@),
                acc.wf(),
                s == vals(point@),
                acc@ == id_mle(s.take(i as int)),
            decreases rem - i,
        {
            proof {
                assert(s.take(i + 1).drop_last() =~= s.take(i as int));
                assert(s.take(i + 1).last() == s[i as int]);
            }
            acc = acc.add(Fp::two_pow(i).mul(point[i]));
            i = i + 1;
        }
        let ghost idp: int = id_mle(s.take(rem as int));
        proof {
            if s.take(rem as int).len() > 0 {
                lemma_mod_bound(
                    id_mle(s.take(rem as int).drop_last())
                        + fmul(fpow2((s.take(rem as int).len() - 1) as nat), s.take(rem as int).last()),
                    P as int,
                );
            }
            assert(0 <= idp < P);
            assert(s.skip(rem as int).take(0) =~= Seq::<int>::empty());
            lemma_small_mod(idp as nat, P as nat);
            assert(fmul(idp, 1) == idp);
        }
        let mut j: usize = rem;
        while j < point.len()
            invariant
                rem <= j <= point@.len(),
                point@.len() == LIMB_BITS,
                all_wf(point@),
                acc.wf(),
                s == vals(point@),
                idp == id_mle(s.take(rem as int)),
                acc@ == fmul(idp, vanish(s.skip(rem as int).take(j - rem))),
            decreases point@.len() - j,
        {
            proof {
                let v: Seq<int> = s.skip(rem as int);
                assert(v.take(j - rem + 1).drop_last() =~= v.take(j - rem));
                assert(v.take(j - rem + 1).last() == s[j as int]);
                lemma_fmul_assoc(idp, vanish(v.take(j - rem)), fsub(1, s[j as int]));
            }
            acc = acc.mul(Fp::one().sub(point[j]));
            j = j + 1;
        }
        proof {
            assert(s.skip(rem as int).take(point@.len() - rem) =~= s.skip(rem as int));
        }
        acc
    }
}

/// One subtable of a range table: every chunk is served by the full limb
/// except a short trailing remainder chunk.
#[derive(Clone, Copy, Debug)]
pub enum RangeSubtable<const NUM_BITS: usize, const LIMB_BITS: usize> {
    Full(FullLimbSubtable<LIMB_BITS>),
    Reminder(ReminderSubtable<NUM_BITS, LIMB_BITS>),
}


/// The number of chunks a `nb`-bit index splits into under `lb`-bit limbs.
pub open spec fn num_chunks(nb: nat, lb: nat) -> nat {
    if lb == 0 {
        0
    } else if nb % lb == 0 {
        nb / lb
    } else {
        nb / lb + 1
    }
}

/// Where chunk `i` of an `n`-bit index ends under `l`-bit limbs.
pub open spec fn chunk_end(n: int, l: int, i: int) -> int {
    if (i + 1) * l <= n {
        (i + 1) * l
    } else {
        n
    }
}

/// `chunks` is the little-endian split of `bits` into `l`-bit limbs.
pub open spec fn is_chunking(chunks: Seq<Seq<bool>>, bits: Seq<bool>, l: nat) -> bool {
    &&& l >= 1
    &&& chunks.len() == num_chunks(bits.len(), l)
    &&& forall|i: int|
        0 <= i < chunks.len() ==> chunks[i] == bits.subrange(
            i * l,
            chunk_end(bits.len() as int, l as int, i),
        )
}

/// Every chunk index of a chunking starts strictly inside the bit string.
proof fn lemma_chunk_in_range(n: int, l: int, i: int)
    requires
        l >= 1,
        n >= 0,
        0 <= i < num_chunks(n as nat, l as nat),
    ensures
        0 <= i * l,
        i * l < n,
        chunk_end(n, l, i) <= n,
        i * l < chunk_end(n, l, i),
{
    let q: int = n / l;
    let s: int = n % l;
    vstd::arithmetic::div_mod::lemma_fundamental_div_mod(n, l);
    vstd::arithmetic::div_mod::lemma_mod_bound(n, l);
    assert(0 <= i * l && i * l < n) by (nonlinear_arith)
        requires
            n == l * q + s,
            0 <= s < l,
            l >= 1,
            0 <= i,
            i < q + (if s == 0 { 0int } else { 1int }),
    {}
    assert(i * l < (i + 1) * l) by (nonlinear_arith)
        requires
            l >= 1,
    {}
}

/// Splitting off the first limb leaves a chunking of the remaining bits.
proof fn lemma_chunking_step(chunks: Seq<Seq<bool>>, bits: Seq<bool>, l: nat)
    requires
        is_chunking(chunks, bits, l),
        bits.len() > l,
    ensures
        is_chunking(chunks.drop_first(), bits.skip(l as int), l),
{
    let n: int = bits.len() as int;
    let li: int = l as int;
    let rest: Seq<bool> = bits.skip(li);
    assert(num_chunks((bits.len() - l) as nat, l) == num_chunks(bits.len(), l) - 1) by {
        let q: int = n / li;
        let s: int = n % li;
        vstd::arithmetic::div_mod::lemma_fundamental_div_mod(n, li);
        vstd::arithmetic::div_mod::lemma_mod_bound(n, li);
        assert(q >= 1) by (nonlinear_arith)
            requires
                n == li * q + s,
                0 <= s < li,
                n > li,
        {}
        assert(n - li == (q - 1) * li + s) by (nonlinear_arith)
            requires
                n == li * q + s,
        {}
        vstd::arithmetic::div_mod::lemma_fundamental_div_mod_converse(n - li, li, q - 1, s);
    }
    assert forall|i: int| 0 <= i < chunks.drop_first().len() implies chunks.drop_first()[i]
        == rest.subrange(i * li, chunk_end(rest.len() as int, li, i)) by {
        assert(chunks.drop_first()[i] == chunks[i + 1]);
        assert((i + 1) * li == i * li + li) by (nonlinear_arith);
        assert((i + 2) * li == (i + 1) * li + li) by (nonlinear_arith);
        assert(chunk_end(n, li, i + 1) == chunk_end(n - li, li, i) + li);
        lemma_chunk_in_range(n - li, li, i);
        lemma_chunk_in_range(n, li, i + 1);
        assert(rest.subrange(i * li, chunk_end(rest.len() as int, li, i)) =~= bits.subrange(
            (i + 1) * li,
            chunk_end(n, li, i + 1),
        ));
    }
}

/// Concatenating the limbs of a chunking reproduces the bit string.
pub proof fn lemma_chunks_concat(chunks: Seq<Seq<bool>>, bits: Seq<bool>, l: nat)
    requires
        is_chunking(chunks, bits, l),
    ensures
        chunks.flatten() == bits,
    decreases chunks.len(),
{
    let n: int = bits.len() as int;
    let li: int = l as int;
    if chunks.len() == 0 {
        assert(bits.len() == 0) by {
            let q: int = n / li;
            let s: int = n % li;
            vstd::arithmetic::div_mod::lemma_fundamental_div_mod(n, li);
            vstd::arithmetic::div_mod::lemma_mod_bound(n, li);
            vstd::arithmetic::div_mod::lemma_div_pos_is_pos(n, li);
            if s == 0 {
                assert(q == 0);
                assert(li * 0 == 0) by (nonlinear_arith);
            }
        }
        assert(chunks.flatten() =~= bits);
    } else if bits.len() <= l {
        assert(num_chunks(bits.len(), l) == 1) by {
            if bits.len() == l {
                vstd::arithmetic::div_mod::lemma_mod_self_0(li);
                vstd::arithmetic::div_mod::lemma_div_by_self(li);
            } else {
                vstd::arithmetic::div_mod::lemma_basic_div(n, li);
                vstd::arithmetic::div_mod::lemma_small_mod(bits.len(), l);
            }
        }
        assert(1int * li == li) by (nonlinear_arith);
        assert(chunk_end(n, li, 0) == n);
        assert(chunks[0] == bits.subrange(0, n));
        assert(bits.subrange(0, n) =~= bits);
        assert(chunks.drop_first().flatten() =~= Seq::<bool>::empty());
        assert(chunks.flatten() =~= bits);
    } else {
        lemma_chunking_step(chunks, bits, l);
        lemma_chunks_concat(chunks.drop_first(), bits.skip(li), l);
        assert(chunks[0] == bits.subrange(0, chunk_end(n, li, 0)));
        assert(chunk_end(n, li, 0) == li);
        assert(chunks.flatten() == chunks.first().add(chunks.drop_first().flatten()));
        assert(bits.subrange(0, li).add(bits.skip(li)) =~= bits);
    }
}

/// `Σ ops[i] · 2^(lb·i)`: the Horner-style recomposition of a value from
/// its limbs, reduced modulo the field order.
pub open spec fn combine_spec(ops: Seq<int>, lb: nat) -> int
    decreases ops.len(),
{
    if ops.len() == 0 {
        0
    } else {
        fadd(
            combine_spec(ops.drop_last(), lb),
            fmul(ops.last(), fpow2(lb * ((ops.len() - 1) as nat))),
        )
    }
}

/// Recombines limb values into the looked-up value: `Σ operands[i] · W^i`
/// with weight `W = 2^LIMB_BITS`.
fn combine_lookups_impl<const LIMB_BITS: usize>(operands: &[Fp]) -> (r: Fp)
    requires
        all_wf(operands@),
    ensures
        r.wf(),
        r@ == combine_spec(vals(operands@), LIMB_BITS as nat),
{
    let ghost s: Seq<int> = vals(operands@);
    let weight: Fp = Fp::two_pow(LIMB_BITS);
    let mut w: Fp = Fp::one();
    let mut acc: Fp = Fp::zero();
    let mut i: usize = 0;
    proof {
        lemma_small_mod(1nat, P as nat);
        lemma2_to64();
        assert(fpow2(0) == 1);
    }
    while i < operands.len()
        invariant
            i <= operands@.len(),
            all_wf(operands@),
            acc.wf(),
            w.wf(),
            s == vals(operands@),
            weight.wf(),
            weight@ == fpow2(LIMB_BITS as nat),
            w@ == fpow2(LIMB_BITS as nat * i as nat),
            acc@ == combine_spec(s.take(i as int), LIMB_BITS as nat),
        decreases operands@.len() - i,
    {
        proof {
            assert(s.take(i + 1).drop_last() =~= s.take(i as int));
            assert(s.take(i + 1).last() == s[i as int]);
        }
        acc = acc.add(operands[i].mul(w));
        proof {
            lemma_fpow2_adds(LIMB_BITS as nat * i as nat, LIMB_BITS as nat);
            assert(LIMB_BITS as nat * i as nat + LIMB_BITS as nat == LIMB_BITS as nat * (i + 1) as nat)
                by (nonlinear_arith);
        }
        w = w.mul(weight);
        i = i + 1;
    }
    proof {
        assert(s.take(s.len() as int) =~= s);
    }
    acc
}

/// Limb widths of the range table: `LIMB_BITS` repeated `NUM_BITS /
/// LIMB_BITS` times, with a trailing `NUM_BITS mod LIMB_BITS` entry iff
/// that remainder is nonzero.
fn chunk_bits_impl<const NUM_BITS: usize, const LIMB_BITS: usize>() -> (r: Vec<usize>)
    requires
        LIMB_BITS >= 1,
        NUM_BITS / LIMB_BITS < usize::MAX,
    ensures
        r@.len() == num_chunks(NUM_BITS as nat, LIMB_BITS as nat),
        forall|i: int| 0 <= i < NUM_BITS as int / LIMB_BITS as int ==> r@[i] == LIMB_BITS,
        NUM_BITS % LIMB_BITS != 0 ==> r@[r@.len() - 1] == NUM_BITS % LIMB_BITS,
{
    let full: usize = NUM_BITS / LIMB_BITS;
    let mut r: Vec<usize> = Vec::new();
    let mut i: usize = 0;
    while i < full
        invariant
            i <= full,
            r@.len() == i,
            forall|j: int| 0 <= j < i ==> r@[j] == LIMB_BITS,
        decreases full - i,
    {
        r.push(LIMB_BITS);
        i = i + 1;
    }
    let rem: usize = NUM_BITS % LIMB_BITS;
    if rem != 0 {
        r.push(rem);
    }
    r
}

/// Splits a little-endian bit-decomposed index into `LIMB_BITS`-sized
/// chunks.
fn subtable_indices_impl<const LIMB_BITS: usize>(index_bits: Vec<bool>) -> (r: Vec<Vec<bool>>)
    requires
        LIMB_BITS >= 1,
    ensures
        is_chunking(
            r@.map_values(|v: Vec<bool>| v@),
            index_bits@,
            LIMB_BITS as nat,
        ),
        r@.map_values(|v: Vec<bool>| v@).flatten() == index_bits@,
{
    let n: usize = index_bits.len();
    let li: usize = LIMB_BITS;
    let mut r: Vec<Vec<bool>> = Vec::new();
    let mut pos: usize = 0;
    while pos < n
        invariant
            LIMB_BITS >= 1,
            li == LIMB_BITS,
            pos <= n,
            n == index_bits@.len(),
            r@.len() >= 1 ==> pos == chunk_end(n as int, li as int, r@.len() - 1),
            r@.len() == 0 ==> pos == 0,
            r@.len() >= 1 ==> (r@.len() - 1) * (li as int) < n,
            forall|i: int|
                0 <= i < r@.len() ==> (#[trigger] r@[i])@ == index_bits@.subrange(
                    i * (li as int),
                    chunk_end(n as int, li as int, i),
                ),
        decreases n - pos,
    {
        let ghost count: int = r@.len() as int;
        proof {
            if count >= 1 {
                assert(pos == chunk_end(n as int, li as int, count - 1));
            }
            assert(pos == count * li) by {
                if count == 0 {
                    assert(count * li == 0) by (nonlinear_arith)
                        requires
                            count == 0,
                    {}
                } else {
                    assert(chunk_end(n as int, li as int, count - 1) == count * li || chunk_end(
                        n as int,
                        li as int,
                        count - 1,
                    ) == n);
                }
            }
        }
        let end: usize = if n - pos > li {
            pos + li
        } else {
            n
        };
        proof {
            assert((count + 1) * li == count * li + li) by (nonlinear_arith);
            assert(end == chunk_end(n as int, li as int, count));
        }
        let mut c: Vec<bool> = Vec::new();
        let mut k: usize = pos;
        while k < end
            invariant
                pos <= k <= end,
                end <= n,
                n == index_bits@.len(),
                c@.len() == k - pos,
                c@ == index_bits@.subrange(pos as int, k as int),
            decreases end - k,
        {
            proof {
                assert(index_bits@.subrange(pos as int, k + 1) =~= index_bits@.subrange(
                    pos as int,
                    k as int,
                ).push(index_bits@[k as int]));
            }
            c.push(index_bits[k]);
            k = k + 1;
        }
        r.push(c);
        pos = end;
    }
    proof {
        let chunks: Seq<Seq<bool>> = r@.map_values(|v: Vec<bool>| v@);
        let count: int = r@.len() as int;
        let q: int = n as int / li as int;
        let s: int = n as int % li as int;
        vstd::arithmetic::div_mod::lemma_fundamental_div_mod(n as int, li as int);
        vstd::arithmetic::div_mod::lemma_mod_bound(n as int, li as int);
        if count == 0 {
            assert(n == 0);
            assert(count == num_chunks(n as nat, LIMB_BITS as nat)) by {
                assert(q == 0 && s == 0) by (nonlinear_arith)
                    requires
                        n as int == li as int * q + s,
                        0 <= s < li,
                        n == 0,
                        li >= 1,
                        q == n as int / li as int,
                        s == n as int % li as int,
                {}
            }
        } else {
            assert(chunk_end(n as int, li as int, count - 1) == n);
            assert(count * (li as int) >= n && (count - 1) * (li as int) < n);
            assert(count == q + if s == 0 { 0int } else { 1int }) by (nonlinear_arith)
                requires
                    count * (li as int) >= n,
                    (count - 1) * (li as int) < n,
                    n as int == li as int * q + s,
                    0 <= s < li,
                    li >= 1,
            {}
        }
        assert(is_chunking(chunks, index_bits@, LIMB_BITS as nat));
        lemma_chunks_concat(chunks, index_bits@, LIMB_BITS as nat);
    }
    r
}

/// The lookup-strategy view of a range table over `NUM_BITS` bits with
/// `LIMB_BITS`-bit limbs.
#[derive(Clone, Copy, Debug, Default)]
pub struct RangeStategy<const NUM_BITS: usize, const LIMB_BITS: usize>;

impl<const NUM_BITS: usize, const LIMB_BITS: usize> RangeStategy<NUM_BITS, LIMB_BITS> {
    /// Recombines limb values into the looked-up value.
    pub fn combine_lookups(&self, operands: &[Fp]) -> (r: Fp)
        requires
            all_wf(operands@),
        ensures
            r.wf(),
            r@ == combine_spec(vals(operands@), LIMB_BITS as nat),
    {
        combine_lookups_impl::<LIMB_BITS>(operands)
    }

    /// The subtables serving this strategy, in memory order.
    pub fn subtables(&self) -> (r: Vec<RangeSubtable<NUM_BITS, LIMB_BITS>>)
        requires
            LIMB_BITS >= 1,
        ensures
            r@.len() == (if NUM_BITS % LIMB_BITS == 0 { 1int } else { 2int }),
            r@[0] is Full,
            NUM_BITS % LIMB_BITS != 0 ==> r@[1] is Reminder,
    {
        let mut r: Vec<RangeSubtable<NUM_BITS, LIMB_BITS>> = Vec::new();
        r.push(RangeSubtable::Full(FullLimbSubtable));
        if NUM_BITS % LIMB_BITS != 0 {
            r.push(RangeSubtable::Reminder(ReminderSubtable));
        }
        r
    }

    /// A range lookup returns the index itself.
    pub fn output(&self, index: &Fp) -> (r: Fp)
        ensures
            r == index,
    {
        *index
    }

    /// The limb widths of the chunks.
    pub fn chunk_bits(&self) -> (r: Vec<usize>)
        requires
            LIMB_BITS >= 1,
            NUM_BITS / LIMB_BITS < usize::MAX,
        ensures
            r@.len() == num_chunks(NUM_BITS as nat, LIMB_BITS as nat),
            forall|i: int| 0 <= i < NUM_BITS as int / LIMB_BITS as int ==> r@[i] == LIMB_BITS,
            NUM_BITS % LIMB_BITS != 0 ==> r@[r@.len() - 1] == NUM_BITS % LIMB_BITS,
    {
        chunk_bits_impl::<NUM_BITS, LIMB_BITS>()
    }

    /// Splits a bit-decomposed index into limb-sized chunks.
    pub fn subtable_indices(&self, index_bits: Vec<bool>) -> (r: Vec<Vec<bool>>)
        requires
            LIMB_BITS >= 1,
        ensures
            is_chunking(r@.map_values(|v: Vec<bool>| v@), index_bits@, LIMB_BITS as nat),
            r@.map_values(|v: Vec<bool>| v@).flatten() == index_bits@,
    {
        subtable_indices_impl::<LIMB_BITS>(index_bits)
    }
}


/// A count covering `n` in `l`-sized steps, with the step before falling
/// short, is exactly the chunk count.
proof fn lemma_ceil_chunks(r: int, n: int, l: int)
    requires
        l >= 1,
        n >= 0,
        r * l >= n,
        (r - 1) * l < n,
        r >= 0,
    ensures
        r == num_chunks(n as nat, l as nat),
{
    let q: int = n / l;
    let s: int = n % l;
    vstd::arithmetic::div_mod::lemma_fundamental_div_mod(n, l);
    vstd::arithmetic::div_mod::lemma_mod_bound(n, l);
    assert(r == q + (if s == 0 { 0int } else { 1int })) by (nonlinear_arith)
        requires
            r * l >= n,
            (r - 1) * l < n,
            n == l * q + s,
            0 <= s < l,
            l >= 1,
    {}
}

/// Builds the symbolic identity MLE over `l` variables:
/// `Var(0) + 2·Var(1) + 4·Var(2) + ... + 2^(l-1)·Var(l-1)`.
fn id_terms(l: usize) -> (r: MultilinearPolyTerms)
    requires
        1 <= l <= 63,
    ensures
        r.wf(),
        r.num_vars == l,
        forall|pt: Seq<int>| pt.len() == l ==> eval_expr(r.expression, pt) == id_mle(pt),
{
    let mut terms: Vec<PolyExpr> = Vec::new();
    terms.push(PolyExpr::Var(0));
    proof {
        assert(wf_list(terms@, l as nat, 0nat));
        assert(wf_expr(terms@[0], l as nat));
        assert(wf_list(terms@, l as nat, 1nat));
        lemma2_to64();
        assert(fpow2(0) == 1) by {
            lemma_small_mod(1nat, P as nat);
        }
        assert forall|pt: Seq<int>| pt.len() >= 1 implies #[trigger] sum_upto(terms@, pt, 1nat)
            == id_mle(pt.take(1)) by {
            assert(terms@[0] == PolyExpr::Var(0));
            assert(eval_expr(terms@[0], pt) == pt[0]);
            assert(sum_upto(terms@, pt, 0nat) == 0);
            assert(sum_upto(terms@, pt, 1nat) == fadd(0, pt[0]));
            assert(id_mle(Seq::<int>::empty()) == 0);
            assert(pt.take(1).drop_last() =~= Seq::<int>::empty());
            assert(pt.take(1).last() == pt[0]);
            lemma_mod_bound(pt[0], P as int);
            lemma_mod_bound(1 * pt[0], P as int);
            assert(1 * pt[0] == pt[0]) by (nonlinear_arith);
            vstd::arithmetic::div_mod::lemma_mod_twice(pt[0], P as int);
        }
    }
    let mut i: usize = 1;
    while i < l
        invariant
            1 <= i <= l,
            l <= 63,
            terms@.len() == i,
            wf_list(terms@, l as nat, i as nat),
            forall|pt: Seq<int>|
                pt.len() >= i ==> #[trigger] sum_upto(terms@, pt, i as nat) == id_mle(
                    pt.take(i as int),
                ),
        decreases l - i,
    {
        let two: Fp = Fp::from_u64(2);
        proof {
            lemma_small_mod(2nat, P as nat);
        }
        let coeff: PolyExpr = PolyExpr::Pow(Box::new(PolyExpr::Const(two)), i as u32);
        let mut pv: Vec<PolyExpr> = Vec::new();
        pv.push(coeff);
        pv.push(PolyExpr::Var(i));
        let term: PolyExpr = PolyExpr::Prod(pv);
        let ghost old_terms: Seq<PolyExpr> = terms@;
        terms.push(term);
        proof {
            lemma_wf_list_prefix(old_terms, terms@, l as nat, i as nat);
            assert(pv@.len() == 2 && pv@[0] == coeff && pv@[1] == PolyExpr::Var(i));
            assert(wf_expr(PolyExpr::Const(two), l as nat));
            assert(wf_list(pv@, l as nat, 0nat));
            assert(wf_expr(pv@[0], l as nat));
            assert(wf_list(pv@, l as nat, 1nat));
            assert(wf_expr(pv@[1], l as nat));
            assert(wf_list(pv@, l as nat, 2nat));
            assert(wf_expr(term, l as nat));
            assert(wf_list(terms@, l as nat, (i + 1) as nat));
            crate::field::lemma_fpow_two(i as nat);
            lemma_mod_bound(pow2(i as nat) as int, P as int);
            assert forall|pt: Seq<int>| pt.len() >= i + 1 implies #[trigger] sum_upto(
                terms@,
                pt,
                (i + 1) as nat,
            ) == id_mle(pt.take(i + 1)) by {
                lemma_sum_upto_prefix(old_terms, terms@, pt, i as nat);
                assert(sum_upto(terms@, pt, i as nat) == id_mle(pt.take(i as int)));
                let tv: Seq<PolyExpr> = term->Prod_0@;
                assert(tv.len() == 2);
                assert(tv[0] == coeff && tv[1] == PolyExpr::Var(i));
                assert(eval_expr(PolyExpr::Const(two), pt) == 2);
                assert(eval_expr(coeff, pt) == fpow(2, i as nat));
                assert(eval_expr(PolyExpr::Var(i), pt) == pt[i as int]);
                assert(prod_upto(tv, pt, 0nat) == 1);
                assert(prod_upto(tv, pt, 1nat) == fmul(1, eval_expr(coeff, pt)));
                assert(prod_upto(tv, pt, 2nat) == fmul(
                    fmul(1, eval_expr(coeff, pt)),
                    pt[i as int],
                ));
                assert(eval_expr(term, pt) == fmul(
                    fmul(1, eval_expr(coeff, pt)),
                    pt[i as int],
                ));
                assert(eval_expr(coeff, pt) == fpow(2, i as nat));
                let z: int = fpow2(i as nat);
                assert(fmul(1, z) == z) by {
                    assert(1 * z == z) by (nonlinear_arith);
                    lemma_small_mod(z as nat, P as nat);
                }
                assert(eval_expr(term, pt) == fmul(z, pt[i as int]));
                assert(pt.take(i + 1).drop_last() =~= pt.take(i as int));
                assert(pt.take(i + 1).last() == pt[i as int]);
            }
        }
        i = i + 1;
    }
    proof {
        assert(wf_expr(PolyExpr::Sum(terms), l as nat)) by {
            assert(terms@.len() == l);
        }
        assert forall|pt: Seq<int>| pt.len() == l implies eval_expr(
            PolyExpr::Sum(terms),
            pt,
        ) == id_mle(pt) by {
            assert(sum_upto(terms@, pt, l as nat) == id_mle(pt.take(l as int)));
            assert(pt.take(l as int) =~= pt);
        }
    }
    let ghost e: PolyExpr = PolyExpr::Sum(terms);
    let expression: PolyExpr = PolyExpr::Sum(terms);
    proof {
        assert(e == expression);
    }
    MultilinearPolyTerms::new(l, expression)
}

/// A decomposable range table over `NUM_BITS` bits with `LIMB_BITS`-bit
/// limbs.
#[derive(Clone, Copy, Debug)]
pub struct RangeTable<const NUM_BITS: usize, const LIMB_BITS: usize>;

impl<const NUM_BITS: usize, const LIMB_BITS: usize> RangeTable<NUM_BITS, LIMB_BITS> {
    /// A fresh descriptor of the table.
    pub fn new() -> (r: Self) {
        RangeTable
    }

    /// The limb widths of the chunks.
    pub fn chunk_bits(&self) -> (r: Vec<usize>)
        requires
            LIMB_BITS >= 1,
            NUM_BITS / LIMB_BITS < usize::MAX,
        ensures
            r@.len() == num_chunks(NUM_BITS as nat, LIMB_BITS as nat),
            forall|i: int| 0 <= i < NUM_BITS as int / LIMB_BITS as int ==> r@[i] == LIMB_BITS,
            NUM_BITS % LIMB_BITS != 0 ==> r@[r@.len() - 1] == NUM_BITS % LIMB_BITS,
    {
        chunk_bits_impl::<NUM_BITS, LIMB_BITS>()
    }

    /// The subtables backing the chunks: the full limb, plus the remainder
    /// subtable iff the last chunk is short.
    pub fn subtables(&self) -> (r: Vec<RangeSubtable<NUM_BITS, LIMB_BITS>>)
        requires
            LIMB_BITS >= 1,
        ensures
            r@.len() == (if NUM_BITS % LIMB_BITS == 0 { 1int } else { 2int }),
            r@[0] is Full,
            NUM_BITS % LIMB_BITS != 0 ==> r@[1] is Reminder,
    {
        let mut r: Vec<RangeSubtable<NUM_BITS, LIMB_BITS>> = Vec::new();
        r.push(RangeSubtable::Full(FullLimbSubtable));
        if NUM_BITS % LIMB_BITS != 0 {
            r.push(RangeSubtable::Reminder(ReminderSubtable));
        }
        r
    }

    /// Recombines limb values into the looked-up value: `Σ operands[i] ·
    /// 2^(LIMB_BITS·i)`.
    pub fn combine_lookups(&self, operands: &[Fp]) -> (r: Fp)
        requires
            all_wf(operands@),
        ensures
            r.wf(),
            r@ == combine_spec(vals(operands@), LIMB_BITS as nat),
    {
        combine_lookups_impl::<LIMB_BITS>(operands)
    }

    /// The number of memories: one per chunk.
    pub fn num_memories(&self) -> (r: usize)
        requires
            LIMB_BITS >= 1,
            NUM_BITS as int + LIMB_BITS as int - 1 <= usize::MAX,
        ensures
            r == num_chunks(NUM_BITS as nat, LIMB_BITS as nat),
    {
        let r: usize = crate::util::div_ceil(NUM_BITS, LIMB_BITS);
        proof {
            assert((r as int - 1) * (LIMB_BITS as int) < NUM_BITS as int) by (nonlinear_arith)
                requires
                    (r as int) * (LIMB_BITS as int) < (NUM_BITS as int) + (LIMB_BITS as int),
            {}
            lemma_ceil_chunks(r as int, NUM_BITS as int, LIMB_BITS as int);
        }
        r
    }

    /// Splits a bit-decomposed index into limb-sized chunks.
    pub fn subtable_indices(&self, index_bits: Vec<bool>) -> (r: Vec<Vec<bool>>)
        requires
            LIMB_BITS >= 1,
        ensures
            is_chunking(r@.map_values(|v: Vec<bool>| v@), index_bits@, LIMB_BITS as nat),
            r@.map_values(|v: Vec<bool>| v@).flatten() == index_bits@,
    {
        subtable_indices_impl::<LIMB_BITS>(index_bits)
    }

    /// The dense evaluation vectors of the subtables.
    pub fn subtable_polys(&self) -> (r: Vec<Vec<Fp>>)
        requires
            LIMB_BITS >= 1,
            pow2(LIMB_BITS as nat) <= usize::MAX,
        ensures
            r@.len() == (if NUM_BITS % LIMB_BITS == 0 { 1int } else { 2int }),
            r@[0]@.len() == pow2(LIMB_BITS as nat),
            forall|i: int| 0 <= i < r@[0]@.len() ==> (#[trigger] r@[0]@[i]).wf() && r@[0]@[i]@ == i,
            NUM_BITS % LIMB_BITS != 0 ==> r@[1]@.len() == pow2((NUM_BITS % LIMB_BITS) as nat),
            NUM_BITS % LIMB_BITS != 0 ==> forall|i: int|
                0 <= i < r@[1]@.len() ==> (#[trigger] r@[1]@[i]).wf() && r@[1]@[i]@ == i,
    {
        let m: usize = crate::util::pow2_usize(LIMB_BITS);
        let full: FullLimbSubtable<LIMB_BITS> = FullLimbSubtable;
        let mut r: Vec<Vec<Fp>> = Vec::new();
        r.push(full.materialize(m));
        if NUM_BITS % LIMB_BITS != 0 {
            let rem_table: ReminderSubtable<NUM_BITS, LIMB_BITS> = ReminderSubtable;
            r.push(rem_table.materialize(m));
        }
        r
    }

    /// The symbolic multilinear extensions of the subtables: the identity
    /// MLE over `LIMB_BITS` variables, and over `NUM_BITS mod LIMB_BITS`
    /// variables iff the last chunk is short.
    pub fn subtable_polys_terms(&self) -> (r: Vec<MultilinearPolyTerms>)
        requires
            1 <= LIMB_BITS <= 63,
        ensures
            r@.len() == (if NUM_BITS % LIMB_BITS == 0 { 1int } else { 2int }),
            r@[0].wf(),
            r@[0].num_vars == LIMB_BITS,
            forall|pt: Seq<int>|
                pt.len() == LIMB_BITS ==> eval_expr(r@[0].expression, pt) == id_mle(pt),
            NUM_BITS % LIMB_BITS != 0 ==> r@[1].wf() && r@[1].num_vars == NUM_BITS % LIMB_BITS
                && (forall|pt: Seq<int>|
                pt.len() == NUM_BITS as int % LIMB_BITS as int ==> eval_expr(
                    r@[1].expression,
                    pt,
                ) == id_mle(pt)),
    {
        let mut r: Vec<MultilinearPolyTerms> = Vec::new();
        r.push(id_terms(LIMB_BITS));
        let rem: usize = NUM_BITS % LIMB_BITS;
        if rem != 0 {
            r.push(id_terms(rem));
        }
        r
    }

    /// Memories map one-to-one onto chunks.
    pub fn memory_to_chunk_index(&self, memory_index: usize) -> (r: usize)
        ensures
            r == memory_index,
    {
        memory_index
    }

    /// Every memory is served by the full-limb subtable except the trailing
    /// remainder memory, when there is one.
    pub fn memory_to_subtable_index(&self, memory_index: usize) -> (r: usize)
        requires
            LIMB_BITS >= 1,
        ensures
            r == (if NUM_BITS % LIMB_BITS != 0 && memory_index == NUM_BITS as int / LIMB_BITS as int {
                1int
            } else {
                0int
            }),
    {
        if NUM_BITS % LIMB_BITS != 0 && memory_index == NUM_BITS / LIMB_BITS {
            1
        } else {
            0
        }
    }
}

/// Splits `x` into `c` chunks of `chunk_len` bits each, most significant
/// chunk first: entry `i` is `(x >> ((c - 1 - i) · chunk_len)) & (2^chunk_len - 1)`.
pub fn chunk_operand_usize(x: u64, c: usize, chunk_len: usize) -> (r: Vec<usize>)
    requires
        1 <= chunk_len <= 63,
        pow2(chunk_len as nat) - 1 <= usize::MAX,
        c as int * chunk_len as int <= 0xFFFF_FFFF,
    ensures
        r@.len() == c,
        forall|i: int|
            0 <= i < c ==> #[trigger] r@[i] == ((x as int) / (pow2(
                ((c - 1 - i) * chunk_len) as nat,
            ) as int)) % (pow2(chunk_len as nat) as int),
{
    proof {
        vstd::bits::lemma_u64_pow2_no_overflow(chunk_len as nat);
        vstd::bits::lemma_u64_shl_is_mul(1u64, chunk_len as u64);
        assert(1 * pow2(chunk_len as nat) == pow2(chunk_len as nat)) by (nonlinear_arith);
        vstd::arithmetic::power2::lemma_pow2_pos(chunk_len as nat);
    }
    let mask: u64 = (1u64 << (chunk_len as u64)) - 1;
    proof {
        assert(mask == vstd::bits::low_bits_mask(chunk_len as nat)) by {
            vstd::bits::lemma_low_bits_mask_values();
            assert(vstd::bits::low_bits_mask(chunk_len as nat) == (pow2(chunk_len as nat) - 1) as nat);
        }
    }
    let mut r: Vec<usize> = Vec::new();
    let mut i: usize = 0;
    while i < c
        invariant
            i <= c,
            1 <= chunk_len <= 63,
            pow2(chunk_len as nat) - 1 <= usize::MAX,
            c as int * chunk_len as int <= 0xFFFF_FFFF,
            mask == vstd::bits::low_bits_mask(chunk_len as nat),
            mask == pow2(chunk_len as nat) - 1,
            r@.len() == i,
            forall|j: int|
                0 <= j < i ==> #[trigger] r@[j] == ((x as int) / (pow2(
                    ((c - 1 - j) * chunk_len) as nat,
                ) as int)) % (pow2(chunk_len as nat) as int),
        decreases c - i,
    {
        proof {
            assert((c - 1 - i) as int * chunk_len as int <= c as int * chunk_len as int)
                by (nonlinear_arith)
                requires
                    0 <= (c - 1 - i) as int + 1 <= c as int,
                    chunk_len >= 1,
            {}
        }
        let shift: usize = (c - 1 - i) * chunk_len;
        let v: u64 = if shift >= 64 {
            proof {
                lemma2_to64_rest();
                if shift > 64 {
                    lemma_pow2_strictly_increases(64, shift as nat);
                }
                vstd::arithmetic::div_mod::lemma_basic_div(x as int, pow2(shift as nat) as int);
                vstd::arithmetic::div_mod::lemma_small_mod(0nat, pow2(chunk_len as nat));
            }
            0
        } else {
            proof {
                vstd::bits::lemma_u64_pow2_no_overflow(chunk_len as nat);
                vstd::arithmetic::power2::lemma_pow2_pos(chunk_len as nat);
                vstd::bits::lemma_u64_shr_is_div(x, shift as u64);
                vstd::bits::lemma_u64_low_bits_mask_is_mod(x >> (shift as u64), chunk_len as nat);
            }
            (x >> (shift as u64)) & mask
        };
        proof {
            vstd::arithmetic::div_mod::lemma_mod_bound(
                (x as int) / (pow2(shift as nat) as int),
                pow2(chunk_len as nat) as int,
            );
            assert(shift as int == (c - 1 - i as int) * (chunk_len as int));
            assert(v as int == ((x as int) / (pow2(shift as nat) as int)) % (pow2(
                chunk_len as nat,
            ) as int));
            assert(v <= mask);
        }
        r.push(v as usize);
        i = i + 1;
    }
    r
}

} // verus!
