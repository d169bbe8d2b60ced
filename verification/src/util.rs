//! Small arithmetic helpers shared across the crate: ceiling division,
//! Horner polynomial evaluation, inner products, and task chunking.

use vstd::prelude::*;
use crate::field::{all_wf, fadd, fmul, vals, Fp};

verus! {

/// `Σ cs[i] · x^i`, reduced modulo the field order at every step.
pub open spec fn poly_at(cs: Seq<int>, x: int) -> int
    decreases cs.len(),
{
    if cs.len() == 0 {
        0
    } else {
        fadd(cs[0], fmul(x, poly_at(cs.skip(1), x)))
    }
}

/// `Σ a[i] · b[i]` over the common prefix, reduced modulo the field order.
pub open spec fn ip(a: Seq<int>, b: Seq<int>) -> int
    decreases a.len(),
{
    if a.len() == 0 || b.len() == 0 {
        0
    } else {
        fadd(ip(a.drop_last(), b.drop_last()), fmul(a.last(), b.last()))
    }
}

/// Ceiling division: the least `r` with `r * divisor >= dividend`.
pub fn div_ceil(dividend: usize, divisor: usize) -> (r: usize)
    requires
        divisor >= 1,
        dividend + divisor - 1 <= usize::MAX,
    ensures
        r == (dividend + divisor - 1) / (divisor as int),
        r * divisor >= dividend,
        r * divisor < dividend + divisor,
        dividend >= 1 ==> r >= 1,
{
    let d: usize = dividend;
    let t: usize = divisor;
    if d == 0 {
        proof {
            vstd::arithmetic::div_mod::lemma_basic_div(t as int - 1, t as int);
        }
        0
    } else {
        let q: usize = (d - 1) / t;
        proof {
            vstd::arithmetic::div_mod::lemma_fundamental_div_mod(d as int - 1, t as int);
            vstd::arithmetic::div_mod::lemma_mod_bound(d as int - 1, t as int);
            let rem: int = (d as int - 1) % (t as int);
            assert(q <= d - 1 && (q + 1) * t >= d && (q + 1) * t < d + t
                && d as int + t as int - 1 == (q as int + 1) * (t as int) + rem) by (nonlinear_arith)
                requires
                    d as int - 1 == (t as int) * (q as int) + rem,
                    0 <= rem < t,
                    1 <= t,
                    0 <= q,
            {}
            vstd::arithmetic::div_mod::lemma_fundamental_div_mod_converse(
                d as int + t as int - 1,
                t as int,
                q as int + 1,
                rem,
            );
        }
        q + 1
    }
}

/// Horner evaluation of a polynomial given by its coefficients, lowest
/// degree first: returns `Σ vs[i] · x^i`.
pub fn horner(vs: &[Fp], x: &Fp) -> (r: Fp)
    requires
        all_wf(vs@),
        x.wf(),
    ensures
        r.wf(),
        r@ == poly_at(vals(vs@), x@),
{
    let ghost s: Seq<int> = vals(vs@);
    let mut acc: Fp = Fp::zero();
    let mut i: usize = vs.len();
    while i > 0
        invariant
            i <= vs.len(),
            all_wf(vs@),
            x.wf(),
            acc.wf(),
            s == vals(vs@),
            acc@ == poly_at(s.skip(i as int), x@),
        decreases i,
    {
        i = i - 1;
        proof {
            assert(s.skip(i as int).skip(1) =~= s.skip(i + 1));
            assert(s.skip(i as int)[0] == s[i as int]);
        }
        acc = acc.mul(*x).add(vs[i]);
    }
    proof {
        assert(s.skip(0) =~= s);
    }
    acc
}

/// The inner product `Σ lhs[i] · rhs[i]` of two equally long slices.
pub fn inner_product(lhs: &[Fp], rhs: &[Fp]) -> (r: Fp)
    requires
        lhs@.len() == rhs@.len(),
        all_wf(lhs@),
        all_wf(rhs@),
    ensures
        r.wf(),
        r@ == ip(vals(lhs@), vals(rhs@)),
{
    let ghost a: Seq<int> = vals(lhs@);
    let ghost b: Seq<int> = vals(rhs@);
    let mut acc: Fp = Fp::zero();
    let mut i: usize = 0;
    while i < lhs.len()
        invariant
            i <= lhs.len(),
            lhs@.len() == rhs@.len(),
            all_wf(lhs@),
            all_wf(rhs@),
            acc.wf(),
            a == vals(lhs@),
            b == vals(rhs@),
            acc@ == ip(a.take(i as int), b.take(i as int)),
        decreases lhs@.len() - i,
    {
        proof {
            assert(a.take(i + 1).drop_last() =~= a.take(i as int));
            assert(b.take(i + 1).drop_last() =~= b.take(i as int));
            assert(a.take(i + 1).last() == a[i as int]);
            assert(b.take(i + 1).last() == b[i as int]);
        }
        acc = acc.add(lhs[i].mul(rhs[i]));
        i = i + 1;
    }
    proof {
        assert(a.take(a.len() as int) =~= a);
        assert(b.take(b.len() as int) =~= b);
    }
    acc
}

/// `2^e` as a machine integer.
pub fn pow2_usize(e: usize) -> (r: usize)
    requires
        vstd::arithmetic::power2::pow2(e as nat) <= usize::MAX,
    ensures
        r == vstd::arithmetic::power2::pow2(e as nat),
{
    let mut acc: usize = 1;
    let mut i: usize = 0;
    proof {
        vstd::arithmetic::power2::lemma2_to64();
    }
    while i < e
        invariant
            i <= e,
            acc == vstd::arithmetic::power2::pow2(i as nat),
            vstd::arithmetic::power2::pow2(e as nat) <= usize::MAX,
        decreases e - i,
    {
        proof {
            vstd::arithmetic::power2::lemma_pow2_unfold((i + 1) as nat);
            if i + 1 < e {
                vstd::arithmetic::power2::lemma_pow2_strictly_increases((i + 1) as nat, e as nat);
            }
        }
        acc = acc * 2;
        i = i + 1;
    }
    acc
}

/// Relies on `rayon_core::current_num_threads`: it reports the size of the
/// current (or global) thread-pool registry, which always holds at least one
/// thread.
#[verifier::external_body]
pub fn num_threads() -> (r: usize)
    ensures
        1 <= r,
{
    rayon::current_num_threads()
}

/// Splits `num_tasks` into per-thread chunks: returns `(chunk_size,
/// num_chunks)` with every task covered and no chunk empty.
pub fn chunk_info(num_tasks: usize) -> (r: (usize, usize))
    requires
        1 <= num_tasks,
        num_tasks <= usize::MAX / 2,
    ensures
        1 <= r.0,
        1 <= r.1,
        r.0 * r.1 >= num_tasks,
        r.1 == (num_tasks + r.0 - 1) / (r.0 as int),
{
    let t: usize = num_threads();
    let tmin: usize = if t < num_tasks {
        t
    } else {
        num_tasks
    };
    let chunk_size: usize = div_ceil(num_tasks, tmin);
    proof {
        let n: int = num_tasks as int;
        let m: int = tmin as int;
        assert(n + m - 1 <= n * m) by (nonlinear_arith)
            requires
                1 <= m <= n,
        {}
        vstd::arithmetic::div_mod::lemma_div_is_ordered(n + m - 1, n * m, m);
        vstd::arithmetic::div_mod::lemma_div_by_multiple(n, m);
    }
    let num_chunks: usize = div_ceil(num_tasks, chunk_size);
    proof {
        assert(num_chunks * chunk_size >= num_tasks);
        assert(chunk_size * num_chunks == num_chunks * chunk_size) by (nonlinear_arith);
    }
    (chunk_size, num_chunks)
}

} // verus!
