//! The round-by-round sum-check verifier, and the prover-side hooks whose
//! contracts both sides of the protocol share.
//!
//! Each round the prover sends the coefficients of a univariate round
//! polynomial `p`; the verifier checks `p(0) + p(1)` against the running
//! claim, squeezes a challenge `x`, and continues with the claim `p(x)`.
//! After all rounds the final claim is the asserted evaluation at the
//! accumulated point.

use vstd::prelude::*;
use crate::field::{all_wf, fadd, fmul, fsub, vals, Fp};
use crate::transcript::{ch_head, ch_tail, Transcript};
use crate::util::{horner, poly_at};
use crate::Error;

verus! {

/// The outcome of running `n` sum-check rounds of degree `d` against the
/// given proof and challenge streams: `None` on a short read or a claim
/// mismatch, otherwise the final evaluation, the accumulated point, and the
/// streams as they remain.
pub open spec fn sc_rounds(n: nat, d: nat, claim: int, reads: Seq<Fp>, chals: Seq<Fp>) -> Option<
    (int, Seq<Fp>, Seq<Fp>, Seq<Fp>),
>
    decreases n,
{
    if n == 0 {
        Some((claim, Seq::empty(), reads, chals))
    } else if reads.len() < d + 1 {
        None
    } else {
        let cs = vals(reads.take((d + 1) as int));
        if fadd(poly_at(cs, 0), poly_at(cs, 1)) != claim {
            None
        } else {
            let x = ch_head(chals);
            match sc_rounds(
                (n - 1) as nat,
                d,
                poly_at(cs, x@),
                reads.skip((d + 1) as int),
                ch_tail(chals),
            ) {
                None => None,
                Some(s) => Some((s.0, seq![x] + s.1, s.2, s.3)),
            }
        }
    }
}

/// Prefixes the accumulated point of a sum-check outcome.
pub open spec fn sc_prepend(prefix: Seq<Fp>, o: Option<(int, Seq<Fp>, Seq<Fp>, Seq<Fp>)>) -> Option<
    (int, Seq<Fp>, Seq<Fp>, Seq<Fp>),
> {
    match o {
        None => None,
        Some(s) => Some((s.0, prefix + s.1, s.2, s.3)),
    }
}

/// Runs the embedded sum-check protocol: `num_vars` rounds of degree
/// `degree`, starting from `claim`.  Returns the final evaluation and the
/// accumulated point.
pub fn verify_sum_check<T: Transcript>(
    num_vars: usize,
    degree: usize,
    claim: Fp,
    transcript: &mut T,
) -> (r: Result<(Fp, Vec<Fp>), Error>)
    requires
        old(transcript).wf(),
        claim.wf(),
        degree < usize::MAX,
    ensures
        final(transcript).wf(),
        r matches Ok(v) ==> v.0.wf() && all_wf(v.1@) && v.1@.len() == num_vars,
        r matches Err(e) ==> e == Error::TranscriptExhausted || e == Error::InvalidSumCheck,
        (r is Ok) <==> sc_rounds(
            num_vars as nat,
            degree as nat,
            claim@,
            old(transcript).reads(),
            old(transcript).chals(),
        ) is Some,
        r is Ok ==> (sc_rounds(
            num_vars as nat,
            degree as nat,
            claim@,
            old(transcript).reads(),
            old(transcript).chals(),
        ) matches Some(s) && (r matches Ok(v) && v.0@ == s.0 && v.1@ == s.1
            && final(transcript).reads() == s.2 && final(transcript).chals() == s.3)),
{
    let ghost orig_reads: Seq<Fp> = old(transcript).reads();
    let ghost orig_chals: Seq<Fp> = old(transcript).chals();
    let ghost full: Option<(int, Seq<Fp>, Seq<Fp>, Seq<Fp>)> = sc_rounds(
        num_vars as nat,
        degree as nat,
        claim@,
        orig_reads,
        orig_chals,
    );
    let mut cur: Fp = claim;
    let mut xs: Vec<Fp> = Vec::new();
    let mut i: usize = 0;
    while i < num_vars
        invariant
            i <= num_vars,
            degree < usize::MAX,
            transcript.wf(),
            cur.wf(),
            all_wf(xs@),
            xs@.len() == i,
            orig_reads == old(transcript).reads(),
            orig_chals == old(transcript).chals(),
            full == sc_rounds(num_vars as nat, degree as nat, claim@, orig_reads, orig_chals),
            sc_prepend(
                xs@,
                sc_rounds(
                    (num_vars - i) as nat,
                    degree as nat,
                    cur@,
                    transcript.reads(),
                    transcript.chals(),
                ),
            ) == full,
        decreases num_vars - i,
    {
        let ghost pre_reads: Seq<Fp> = transcript.reads();
        let ghost pre_chals: Seq<Fp> = transcript.chals();
        let cs: Vec<Fp> = match transcript.read_felt_exts(degree + 1) {
            Ok(v) => v,
            Err(_) => {
                proof {
                    assert(pre_reads.len() < degree + 1);
                    assert(sc_rounds(
                        (num_vars - i) as nat,
                        degree as nat,
                        cur@,
                        pre_reads,
                        pre_chals,
                    ) is None);
                    assert(full is None);
                }
                return Err(Error::TranscriptExhausted);
            },
        };
        let p0: Fp = horner(cs.as_slice(), &Fp::zero());
        let p1: Fp = horner(cs.as_slice(), &Fp::one());
        if p0.add(p1) != cur {
            proof {
                assert(cs@ == pre_reads.take(degree + 1));
                assert(fadd(poly_at(vals(cs@), 0), poly_at(vals(cs@), 1)) != cur@);
                assert(sc_rounds(
                    (num_vars - i) as nat,
                    degree as nat,
                    cur@,
                    pre_reads,
                    pre_chals,
                ) is None);
                assert(full is None);
            }
            return Err(Error::InvalidSumCheck);
        }
        let x: Fp = transcript.squeeze_challenge();
        let next: Fp = horner(cs.as_slice(), &x);
        proof {
            let rem = sc_rounds((num_vars - i) as nat, degree as nat, cur@, pre_reads, pre_chals);
            assert(x == ch_head(pre_chals));
            assert(cs@ == pre_reads.take(degree + 1));
            let rest = sc_rounds(
                (num_vars - i - 1) as nat,
                degree as nat,
                poly_at(vals(cs@), x@),
                pre_reads.skip(degree + 1),
                ch_tail(pre_chals),
            );
            assert(rem == sc_prepend(seq![x], rest));
            assert forall|pt: Seq<Fp>| true implies xs@ + (seq![x] + pt) == xs@.push(x) + pt by {
                assert(xs@ + (seq![x] + pt) =~= xs@.push(x) + pt);
            }
            assert(sc_prepend(xs@, rem) == sc_prepend(xs@.push(x), rest));
        }
        cur = next;
        xs.push(x);
        i = i + 1;
    }
    proof {
        assert(sc_rounds(0nat, degree as nat, cur@, transcript.reads(), transcript.chals())
            == Some((cur@, Seq::<Fp>::empty(), transcript.reads(), transcript.chals())));
        assert(xs@ + Seq::<Fp>::empty() =~= xs@);
    }
    Ok((cur, xs))
}

/// The batched claim handed to a sum-check round: `Σⱼ γ^j · claims[j]`.
pub fn sum_check_claim(claims: &[Fp], gamma: &Fp) -> (r: Fp)
    requires
        all_wf(claims@),
        gamma.wf(),
    ensures
        r.wf(),
        r@ == poly_at(vals(claims@), gamma@),
{
    horner(claims, gamma)
}

/// Folds a layer's left/right evaluations one layer down: entry `j` becomes
/// `(1 - μ) · evals[2j] + μ · evals[2j+1]`.
pub fn layer_down_claim(evals: &[Fp], mu: &Fp) -> (r: Vec<Fp>)
    requires
        all_wf(evals@),
        mu.wf(),
        evals@.len() % 2 == 0,
    ensures
        all_wf(r@),
        r@.len() == evals@.len() / 2,
        forall|j: int|
            0 <= j < r@.len() ==> (#[trigger] r@[j])@ == fadd(
                fmul(fsub(1, mu@), evals@[2 * j]@),
                fmul(mu@, evals@[2 * j + 1]@),
            ),
{
    let mut r: Vec<Fp> = Vec::new();
    let n: usize = evals.len() / 2;
    proof {
        assert(evals@.len() == 2 * n);
    }
    let mut j: usize = 0;
    let one_minus: Fp = Fp::one().sub(*mu);
    while j < n
        invariant
            j <= n,
            n == evals@.len() / 2,
            n <= usize::MAX / 2,
            evals@.len() == 2 * n,
            evals@.len() % 2 == 0,
            all_wf(evals@),
            mu.wf(),
            one_minus.wf(),
            one_minus@ == fsub(1, mu@),
            all_wf(r@),
            r@.len() == j,
            forall|k: int|
                0 <= k < j ==> (#[trigger] r@[k])@ == fadd(
                    fmul(fsub(1, mu@), evals@[2 * k]@),
                    fmul(mu@, evals@[2 * k + 1]@),
                ),
        decreases n - j,
    {
        proof {
            assert(2 * j + 1 < evals@.len());
        }
        let v: Fp = one_minus.mul(evals[2 * j]).add(mu.mul(evals[2 * j + 1]));
        r.push(v);
        j = j + 1;
    }
    r
}

/// `Π ( y[i]·x[i] + (1 - y[i])·(1 - x[i]) )`: the multilinear equality
/// indicator evaluated off the Boolean cube.
pub open spec fn eq_spec(a: Seq<int>, b: Seq<int>) -> int
    decreases a.len(),
{
    if a.len() == 0 || b.len() == 0 {
        1
    } else {
        fmul(
            eq_spec(a.drop_last(), b.drop_last()),
            fadd(fmul(a.last(), b.last()), fmul(fsub(1, a.last()), fsub(1, b.last()))),
        )
    }
}

/// Evaluates the equality indicator at a pair of points.
pub fn eq_eval(y: &[Fp], x: &[Fp]) -> (r: Fp)
    requires
        y@.len() == x@.len(),
        all_wf(y@),
        all_wf(x@),
    ensures
        r.wf(),
        r@ == eq_spec(vals(y@), vals(x@)),
{
    let ghost a: Seq<int> = vals(y@);
    let ghost b: Seq<int> = vals(x@);
    let mut acc: Fp = Fp::one();
    let mut i: usize = 0;
    while i < y.len()
        invariant
            i <= y@.len(),
            y@.len() == x@.len(),
            all_wf(y@),
            all_wf(x@),
            acc.wf(),
            a == vals(y@),
            b == vals(x@),
            acc@ == eq_spec(a.take(i as int), b.take(i as int)),
        decreases y@.len() - i,
    {
        proof {
            assert(a.take(i + 1).drop_last() =~= a.take(i as int));
            assert(b.take(i + 1).drop_last() =~= b.take(i as int));
            assert(a.take(i + 1).last() == a[i as int]);
            assert(b.take(i + 1).last() == b[i as int]);
        }
        let term: Fp = y[i].mul(x[i]).add(Fp::one().sub(y[i]).mul(Fp::one().sub(x[i])));
        acc = acc.mul(term);
        i = i + 1;
    }
    proof {
        assert(a.take(a.len() as int) =~= a);
        assert(b.take(b.len() as int) =~= b);
    }
    acc
}

} // verus!
