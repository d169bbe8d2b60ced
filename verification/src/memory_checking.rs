//! Memory-checking verification: batched grand products over a layered
//! circuit, and per-chunk reconciliation of committed polynomial openings
//! against hash fingerprints of (address, value, timestamp) tuples.

use vstd::prelude::*;
use crate::field::{all_wf, fadd, fmul, fsub, in_field, vals, Fp, P};
use crate::sumcheck::{eq_spec, layer_down_claim, sc_rounds, sum_check_claim};
use crate::terms::{eval_expr, id_mle, id_poly_eval, MultilinearPolyTerms};
use crate::util::poly_at;
use crate::transcript::{ch_head, ch_tail, Transcript};
use crate::Error;
use vstd::arithmetic::div_mod::{
    lemma_add_mod_noop, lemma_add_mod_noop_right, lemma_mul_mod_noop_left,
    lemma_mul_mod_noop_right, lemma_small_mod, lemma_sub_mod_noop,
};

verus! {

/// The fingerprint hash `h(a, v, t) = a + γ·v + γ²·t - τ` distinguishing
/// (address, value, timestamp) triples.
pub open spec fn fp_h(a: int, v: int, t: int, g: int, tau: int) -> int {
    fsub(fadd(fadd(a, fmul(g, v)), fmul(fmul(g, g), t)), tau)
}

/// Evaluates the fingerprint hash.
pub fn fingerprint(a: &Fp, v: &Fp, t: &Fp, gamma: &Fp, tau: &Fp) -> (r: Fp)
    requires
        a.wf(),
        v.wf(),
        t.wf(),
        gamma.wf(),
        tau.wf(),
    ensures
        r.wf(),
        r@ == fp_h(a@, v@, t@, gamma@, tau@),
{
    a.add(gamma.mul(*v)).add(gamma.mul(*gamma).mul(*t)).sub(*tau)
}

/// The fingerprint hash collapses to a single reduction of the unreduced
/// integer form.
proof fn lemma_fp_h_unreduced(a: int, v: int, t: int, g: int, tau: int)
    requires
        in_field(a),
        in_field(v),
        in_field(t),
        in_field(g),
        in_field(tau),
    ensures
        fp_h(a, v, t, g, tau) == (a + g * v + g * g * t - tau) % (P as int),
{
    let p: int = P as int;
    lemma_add_mod_noop_right(a, g * v, p);
    lemma_small_mod(a as nat, P as nat);
    lemma_mul_mod_noop_left(g * g, t, p);
    lemma_add_mod_noop(a + g * v, g * g * t, p);
    lemma_small_mod(tau as nat, P as nat);
    lemma_sub_mod_noop(a + g * v + g * g * t, tau, p);
    assert((g * g) * t == g * g * t) by (nonlinear_arith);
}

/// Bumping the timestamp by one shifts the fingerprint by exactly `γ²`:
/// for all canonical `γ, τ, a, v, t`,
/// `h(a, v, t + 1) - h(a, v, t) == γ²`.
pub proof fn lemma_fingerprint_time_step(a: int, v: int, t: int, g: int, tau: int)
    requires
        in_field(a),
        in_field(v),
        in_field(t),
        in_field(g),
        in_field(tau),
    ensures
        fsub(fp_h(a, v, fadd(t, 1), g, tau), fp_h(a, v, t, g, tau)) == fmul(g, g),
{
    let p: int = P as int;
    let t2: int = fadd(t, 1);
    lemma_fp_h_unreduced(a, v, t, g, tau);
    lemma_fp_h_unreduced(a, v, t2, g, tau);
    let base: int = a + g * v + g * g * t - tau;
    assert(fp_h(a, v, t2, g, tau) == (base + g * g) % p) by {
        lemma_add_mod_noop_right(a + g * v - tau, g * g * t2, p);
        lemma_mul_mod_noop_right(g * g, t + 1, p);
        lemma_add_mod_noop_right(a + g * v - tau, g * g * (t + 1), p);
        assert(g * g * t2 == (g * g) * t2 && g * g * (t + 1) == g * g * t + g * g)
            by (nonlinear_arith);
    }
    lemma_sub_mod_noop(base + g * g, base, p);
    assert(((base + g * g) % p - base % p) % p == (g * g) % p) by {
        vstd::arithmetic::div_mod::lemma_mod_twice(base + g * g, p);
        vstd::arithmetic::div_mod::lemma_mod_twice(base, p);
    }
}

/// One addressable subtable instance within a chunk.
#[derive(Debug)]
pub struct Memory {
    pub memory_index: usize,
    pub subtable_poly: MultilinearPolyTerms,
}

impl Memory {
    /// The subtable polynomial mentions only its own variables.
    pub open spec fn wf(self) -> bool {
        self.subtable_poly.wf()
    }

    /// Packs a memory descriptor.
    pub fn new(memory_index: usize, subtable_poly: MultilinearPolyTerms) -> (r: Memory)
        requires
            subtable_poly.wf(),
        ensures
            r.wf(),
            r.memory_index == memory_index,
            r.subtable_poly == subtable_poly,
    {
        Memory { memory_index, subtable_poly }
    }
}

/// A group of memories sharing one `dim` column; one limb of the table
/// index.
#[derive(Debug)]
pub struct Chunk {
    pub chunk_index: usize,
    pub chunk_bits: usize,
    pub memory: Vec<Memory>,
}

impl Chunk {
    /// The chunk holds at least one memory, and every memory's subtable
    /// polynomial is declared over exactly `chunk_bits` variables.
    pub open spec fn wf(self) -> bool {
        &&& self.memory@.len() >= 1
        &&& forall|i: int|
            0 <= i < self.memory@.len() ==> (#[trigger] self.memory@[i]).wf()
                && self.memory@[i].subtable_poly.num_vars == self.chunk_bits
    }

    /// A chunk holding a single memory.
    pub fn new(chunk_index: usize, chunk_bits: usize, memory: Memory) -> (r: Chunk)
        requires
            memory.wf(),
            memory.subtable_poly.num_vars == chunk_bits,
        ensures
            r.wf(),
            r.chunk_index == chunk_index,
            r.chunk_bits == chunk_bits,
            r.memory@ == seq![memory],
    {
        let r = Chunk { chunk_index, chunk_bits, memory: vec![memory] };
        r
    }

    /// The transcript positions of this chunk's `dim`, `read_ts` and
    /// `final_cts` polynomials among the committed polynomials.
    pub fn chunk_polys_index(&self, offset: usize, num_chunks: usize) -> (r: Vec<usize>)
        requires
            offset + 1 + 2 * num_chunks + self.chunk_index <= usize::MAX,
        ensures
            r@.len() == 3,
            r@[0] == offset + 1 + self.chunk_index,
            r@[1] == offset + 1 + num_chunks + self.chunk_index,
            r@[2] == offset + 1 + 2 * num_chunks + self.chunk_index,
    {
        let dim_poly_index: usize = offset + 1 + self.chunk_index;
        let read_ts_poly_index: usize = offset + 1 + num_chunks + self.chunk_index;
        let final_cts_poly_index: usize = offset + 1 + 2 * num_chunks + self.chunk_index;
        let mut r: Vec<usize> = Vec::new();
        r.push(dim_poly_index);
        r.push(read_ts_poly_index);
        r.push(final_cts_poly_index);
        r
    }

    /// How many memories share this chunk.
    pub fn num_memories(&self) -> (r: usize)
        ensures
            r == self.memory@.len(),
    {
        self.memory.len()
    }

    /// The bit width of this chunk.
    pub fn chunk_bits(&self) -> (r: usize)
        ensures
            r == self.chunk_bits,
    {
        self.chunk_bits
    }

    /// Adds a memory to the chunk.
    pub fn add_memory(&mut self, memory: Memory)
        requires
            old(self).wf(),
            memory.wf(),
            memory.subtable_poly.num_vars == old(self).chunk_bits,
        ensures
            final(self).wf(),
            final(self).chunk_index == old(self).chunk_index,
            final(self).chunk_bits == old(self).chunk_bits,
            final(self).memory@ == old(self).memory@.push(memory),
    {
        self.memory.push(memory);
    }

    /// The flat memory indices of this chunk's memories, in order.
    pub fn memory_indices(&self) -> (r: Vec<usize>)
        ensures
            r@.len() == self.memory@.len(),
            forall|i: int| 0 <= i < r@.len() ==> r@[i] == self.memory@[i].memory_index,
    {
        let mut r: Vec<usize> = Vec::new();
        let mut i: usize = 0;
        while i < self.memory.len()
            invariant
                i <= self.memory@.len(),
                r@.len() == i,
                forall|j: int| 0 <= j < i ==> r@[j] == self.memory@[j].memory_index,
            decreases self.memory@.len() - i,
        {
            r.push(self.memory[i].memory_index);
            i = i + 1;
        }
        r
    }
}

/// The four fingerprint equations of memory `i` of a chunk, against the
/// claimed openings `opening = [dim_x, read_ts_x, final_cts_y] ++
/// e_poly_xs`.
pub open spec fn mem_check(
    c: Chunk,
    read_xs: Seq<int>,
    write_xs: Seq<int>,
    init_ys: Seq<int>,
    final_read_ys: Seq<int>,
    yv: Seq<int>,
    opening: Seq<Fp>,
    g: int,
    tau: int,
    i: int,
) -> bool {
    let dim = opening[0]@;
    let rts = opening[1]@;
    let fcts = opening[2]@;
    let e = opening[3 + i]@;
    let sub = eval_expr(c.memory@[i].subtable_poly.expression, yv);
    &&& read_xs[i] == fp_h(dim, e, rts, g, tau)
    &&& write_xs[i] == fp_h(dim, e, fadd(rts, 1), g, tau)
    &&& init_ys[i] == fp_h(id_mle(yv), sub, 0, g, tau)
    &&& final_read_ys[i] == fp_h(id_mle(yv), sub, fcts, g, tau)
}

/// The per-memory fingerprint equations of one chunk, for every memory.
pub open spec fn chunk_checks(
    c: Chunk,
    read_xs: Seq<int>,
    write_xs: Seq<int>,
    init_ys: Seq<int>,
    final_read_ys: Seq<int>,
    yv: Seq<int>,
    opening: Seq<Fp>,
    g: int,
    tau: int,
) -> bool {
    forall|i: int|
        0 <= i < c.memory@.len() ==> #[trigger] mem_check(
            c,
            read_xs,
            write_xs,
            init_ys,
            final_read_ys,
            yv,
            opening,
            g,
            tau,
            i,
        )
}

impl Chunk {
    /// Reads this chunk's committed openings from the transcript and checks
    /// all four fingerprint equations for each memory.
    pub fn verify_memories<T: Transcript>(
        &self,
        read_xs: &[Fp],
        write_xs: &[Fp],
        init_ys: &[Fp],
        final_read_ys: &[Fp],
        y: &[Fp],
        gamma: &Fp,
        tau: &Fp,
        transcript: &mut T,
    ) -> (r: Result<(Fp, Fp, Fp, Vec<Fp>), Error>)
        requires
            self.wf(),
            old(transcript).wf(),
            y@.len() == self.chunk_bits,
            all_wf(y@),
            gamma.wf(),
            tau.wf(),
            read_xs@.len() == self.memory@.len(),
            write_xs@.len() == self.memory@.len(),
            init_ys@.len() == self.memory@.len(),
            final_read_ys@.len() == self.memory@.len(),
            all_wf(read_xs@),
            all_wf(write_xs@),
            all_wf(init_ys@),
            all_wf(final_read_ys@),
            3 + self.memory@.len() <= usize::MAX,
        ensures
            final(transcript).wf(),
            final(transcript).chals() == old(transcript).chals(),
            old(transcript).reads().len() >= 3 + self.memory@.len()
                ==> final(transcript).reads() == old(transcript).reads().skip(
                3 + self.memory@.len() as int,
            ),
            (r is Ok) <==> (old(transcript).reads().len() >= 3 + self.memory@.len()
                && chunk_checks(
                *self,
                vals(read_xs@),
                vals(write_xs@),
                vals(init_ys@),
                vals(final_read_ys@),
                vals(y@),
                old(transcript).reads().take(3 + self.memory@.len() as int),
                gamma@,
                tau@,
            )),
            r matches Ok(v) ==> v.0 == old(transcript).reads()[0] && v.1 == old(
                transcript,
            ).reads()[1] && v.2 == old(transcript).reads()[2] && v.3@ == old(
                transcript,
            ).reads().skip(3).take(self.memory@.len() as int) && v.0.wf() && v.1.wf() && v.2.wf()
                && all_wf(v.3@),
            r matches Err(e) ==> (e == Error::TranscriptExhausted && old(
                transcript,
            ).reads().len() < 3 + self.memory@.len()) || e == Error::FingerprintMismatch,
    {
        let ghost orig: Seq<Fp> = old(transcript).reads();
        let m: usize = self.memory.len();
        let head: Vec<Fp> = match transcript.read_felts_as_exts(3) {
            Ok(v) => v,
            Err(_) => {
                return Err(Error::TranscriptExhausted);
            },
        };
        let dim_x: Fp = head[0];
        let read_ts_poly_x: Fp = head[1];
        let final_cts_poly_y: Fp = head[2];
        let e_poly_xs: Vec<Fp> = match transcript.read_felts_as_exts(m) {
            Ok(v) => v,
            Err(_) => {
                return Err(Error::TranscriptExhausted);
            },
        };
        let ghost opening: Seq<Fp> = orig.take(3 + m as int);
        proof {
            assert(orig.skip(3).take(m as int) =~= orig.subrange(3, 3 + m));
            assert(e_poly_xs@ =~= orig.subrange(3, 3 + m));
            assert(orig.skip(3).skip(m as int) =~= orig.skip(3 + m));
            assert(opening[0] == orig[0] && opening[1] == orig[1] && opening[2] == orig[2]);
            assert(forall|i: int|
                0 <= i < m ==> #[trigger] opening[3 + i] == orig.subrange(3, 3 + m)[i]);
        }
        let id_poly_y: Fp = id_poly_eval(y);
        let one: Fp = Fp::one();
        let zero: Fp = Fp::zero();
        let mut i: usize = 0;
        while i < m
            invariant
                i <= m,
                m == self.memory@.len(),
                self.wf(),
                transcript.wf(),
                orig == old(transcript).reads(),
                orig.len() >= 3 + m,
                transcript.chals() == old(transcript).chals(),
                transcript.reads() == orig.skip(3 + m as int),
                opening == orig.take(3 + m as int),
                y@.len() == self.chunk_bits,
                all_wf(y@),
                gamma.wf(),
                tau.wf(),
                one.wf() && one@ == 1,
                zero.wf() && zero@ == 0,
                dim_x.wf() && read_ts_poly_x.wf() && final_cts_poly_y.wf(),
                all_wf(e_poly_xs@),
                e_poly_xs@.len() == m,
                read_xs@.len() == m && write_xs@.len() == m && init_ys@.len() == m
                    && final_read_ys@.len() == m,
                all_wf(read_xs@) && all_wf(write_xs@) && all_wf(init_ys@) && all_wf(
                    final_read_ys@,
                ),
                id_poly_y.wf() && id_poly_y@ == id_mle(vals(y@)),
                dim_x@ == opening[0]@ && read_ts_poly_x@ == opening[1]@ && final_cts_poly_y@
                    == opening[2]@,
                opening.len() == 3 + m,
                forall|j: int| 0 <= j < m ==> e_poly_xs@[j] == opening[3 + j],
                forall|j: int|
                    0 <= j < i ==> #[trigger] mem_check(
                        *self,
                        vals(read_xs@),
                        vals(write_xs@),
                        vals(init_ys@),
                        vals(final_read_ys@),
                        vals(y@),
                        opening,
                        gamma@,
                        tau@,
                        j,
                    ),
            decreases m - i,
        {
            let read_fp: Fp = fingerprint(&dim_x, &e_poly_xs[i], &read_ts_poly_x, gamma, tau);
            if read_xs[i] != read_fp {
            proof {
                assert(e_poly_xs@[i as int] == opening[3 + i as int]);
                assert(!mem_check(
                    *self,
                    vals(read_xs@),
                    vals(write_xs@),
                    vals(init_ys@),
                    vals(final_read_ys@),
                    vals(y@),
                    opening,
                    gamma@,
                    tau@,
                    i as int,
                ));
                assert(!chunk_checks(
                    *self,
                    vals(read_xs@),
                    vals(write_xs@),
                    vals(init_ys@),
                    vals(final_read_ys@),
                    vals(y@),
                    opening,
                    gamma@,
                    tau@,
                ));
            }
                return Err(Error::FingerprintMismatch);
            }
            let ts_next: Fp = read_ts_poly_x.add(one);
            let write_fp: Fp = fingerprint(&dim_x, &e_poly_xs[i], &ts_next, gamma, tau);
            if write_xs[i] != write_fp {
            proof {
                assert(e_poly_xs@[i as int] == opening[3 + i as int]);
                assert(!mem_check(
                    *self,
                    vals(read_xs@),
                    vals(write_xs@),
                    vals(init_ys@),
                    vals(final_read_ys@),
                    vals(y@),
                    opening,
                    gamma@,
                    tau@,
                    i as int,
                ));
                assert(!chunk_checks(
                    *self,
                    vals(read_xs@),
                    vals(write_xs@),
                    vals(init_ys@),
                    vals(final_read_ys@),
                    vals(y@),
                    opening,
                    gamma@,
                    tau@,
                ));
            }
                return Err(Error::FingerprintMismatch);
            }
            let subtable_poly_y: Fp = self.memory[i].subtable_poly.evaluate(y);
            let init_fp: Fp = fingerprint(&id_poly_y, &subtable_poly_y, &zero, gamma, tau);
            if init_ys[i] != init_fp {
            proof {
                assert(e_poly_xs@[i as int] == opening[3 + i as int]);
                assert(!mem_check(
                    *self,
                    vals(read_xs@),
                    vals(write_xs@),
                    vals(init_ys@),
                    vals(final_read_ys@),
                    vals(y@),
                    opening,
                    gamma@,
                    tau@,
                    i as int,
                ));
                assert(!chunk_checks(
                    *self,
                    vals(read_xs@),
                    vals(write_xs@),
                    vals(init_ys@),
                    vals(final_read_ys@),
                    vals(y@),
                    opening,
                    gamma@,
                    tau@,
                ));
            }
                return Err(Error::FingerprintMismatch);
            }
            let final_fp: Fp = fingerprint(&id_poly_y, &subtable_poly_y, &final_cts_poly_y, gamma, tau);
            if final_read_ys[i] != final_fp {
            proof {
                assert(e_poly_xs@[i as int] == opening[3 + i as int]);
                assert(!mem_check(
                    *self,
                    vals(read_xs@),
                    vals(write_xs@),
                    vals(init_ys@),
                    vals(final_read_ys@),
                    vals(y@),
                    opening,
                    gamma@,
                    tau@,
                    i as int,
                ));
                assert(!chunk_checks(
                    *self,
                    vals(read_xs@),
                    vals(write_xs@),
                    vals(init_ys@),
                    vals(final_read_ys@),
                    vals(y@),
                    opening,
                    gamma@,
                    tau@,
                ));
            }
                return Err(Error::FingerprintMismatch);
            }
            proof {
                assert(e_poly_xs@[i as int] == opening[3 + i as int]);
                assert(mem_check(
                    *self,
                    vals(read_xs@),
                    vals(write_xs@),
                    vals(init_ys@),
                    vals(final_read_ys@),
                    vals(y@),
                    opening,
                    gamma@,
                    tau@,
                    i as int,
                ));
            }
            i = i + 1;
        }
        proof {
            assert(chunk_checks(
                *self,
                vals(read_xs@),
                vals(write_xs@),
                vals(init_ys@),
                vals(final_read_ys@),
                vals(y@),
                opening,
                gamma@,
                tau@,
            ));
        }
        Ok((dim_x, read_ts_poly_x, final_cts_poly_y, e_poly_xs))
    }
}


/// One layer-down fold of left/right leaf evaluations under challenge `mu`.
pub open spec fn fold_evals(evals: Seq<Fp>, mu: Fp) -> Seq<int> {
    Seq::new(evals.len() / 2, |j: int| fadd(fmul(fsub(1, mu@), evals[2 * j]@), fmul(mu@, evals[2 * j + 1]@)))
}

/// The pairwise products of left/right leaf evaluations.
pub open spec fn pair_prods(evals: Seq<Fp>) -> Seq<int> {
    Seq::new(evals.len() / 2, |j: int| fmul(evals[2 * j]@, evals[2 * j + 1]@))
}

/// Resolves the round-0 output claims: a supplied claim is kept (and
/// absorbed into the transcript), a missing one is read from the proof
/// stream.
pub open spec fn gp_claims(claims: Seq<Option<Fp>>, reads: Seq<Fp>) -> Option<(Seq<Fp>, Seq<Fp>)>
    decreases claims.len(),
{
    if claims.len() == 0 {
        Some((Seq::empty(), reads))
    } else {
        match claims[0] {
            Some(v) => match gp_claims(claims.skip(1), reads) {
                None => None,
                Some(s) => Some((seq![v] + s.0, s.1)),
            },
            None => {
                if reads.len() == 0 {
                    None
                } else {
                    match gp_claims(claims.skip(1), reads.skip(1)) {
                        None => None,
                        Some(s) => Some((seq![reads[0]] + s.0, s.1)),
                    }
                }
            },
        }
    }
}

/// Prefixes resolved claims.
pub open spec fn cl_prepend(prefix: Seq<Fp>, o: Option<(Seq<Fp>, Seq<Fp>)>) -> Option<
    (Seq<Fp>, Seq<Fp>),
> {
    match o {
        None => None,
        Some(s) => Some((prefix + s.0, s.1)),
    }
}

/// The outcome of grand-product rounds `k .. n`, carrying the current
/// claims and accumulated point: `None` on a short read or a failed check,
/// otherwise the final claims, point and remaining streams.
///
/// Round 0 reads the two child values of every lane and checks their
/// product against the claim.  Each later round `k` runs a degree-3
/// sum-check over `k` variables on the `γ`-batched claims, cross-checks the
/// resulting evaluation against `eq(y, x) · Σⱼ γ^j·lⱼ·rⱼ`, and folds the
/// left/right values one layer down with a fresh challenge `μ`.
pub open spec fn gp_rounds(
    k: nat,
    n: nat,
    claims: Seq<int>,
    y: Seq<Fp>,
    reads: Seq<Fp>,
    chals: Seq<Fp>,
) -> Option<(Seq<int>, Seq<Fp>, Seq<Fp>, Seq<Fp>)>
    decreases n - k,
{
    if k >= n {
        Some((claims, y, reads, chals))
    } else {
        let b2 = 2 * claims.len();
        if k == 0 {
            if reads.len() < b2 {
                None
            } else {
                let evals = reads.take(b2 as int);
                if claims != pair_prods(evals) {
                    None
                } else {
                    let mu = ch_head(chals);
                    gp_rounds(
                        1,
                        n,
                        fold_evals(evals, mu),
                        seq![mu],
                        reads.skip(b2 as int),
                        ch_tail(chals),
                    )
                }
            }
        } else {
            let gamma = ch_head(chals);
            let claim = poly_at(claims, gamma@);
            match sc_rounds(k, 3, claim, reads, ch_tail(chals)) {
                None => None,
                Some(s) => {
                    if s.2.len() < b2 {
                        None
                    } else {
                        let evals = s.2.take(b2 as int);
                        if s.0 != fmul(
                            eq_spec(vals(y), vals(s.1)),
                            poly_at(pair_prods(evals), gamma@),
                        ) {
                            None
                        } else {
                            let mu = ch_head(s.3);
                            gp_rounds(
                                (k + 1) as nat,
                                n,
                                fold_evals(evals, mu),
                                s.1.push(mu),
                                s.2.skip(b2 as int),
                                ch_tail(s.3),
                            )
                        }
                    }
                },
            }
        }
    }
}

/// The outcome of a whole grand-product verification: claim resolution,
/// then either the terminal product check (`n == 0`) or the layered
/// rounds.
pub open spec fn gp_spec(
    n: nat,
    claims0: Seq<Option<Fp>>,
    reads: Seq<Fp>,
    chals: Seq<Fp>,
) -> Option<(Seq<int>, Seq<Fp>, Seq<Fp>, Seq<Fp>)> {
    match gp_claims(claims0, reads) {
        None => None,
        Some(cl) => {
            if cl.0.len() == 0 {
                None
            } else if n == 0 {
                let b2 = 2 * cl.0.len();
                if cl.1.len() < b2 {
                    None
                } else {
                    let evals = cl.1.take(b2 as int);
                    if vals(cl.0) != pair_prods(evals) {
                        None
                    } else {
                        Some((vals(cl.0), Seq::empty(), cl.1.skip(b2 as int), chals))
                    }
                }
            } else {
                gp_rounds(0, n, vals(cl.0), Seq::empty(), cl.1, chals)
            }
        },
    }
}

/// Checks one batched layered grand product: `2M` output claims are either
/// absorbed or read, then `num_vars` rounds reduce them to leaf
/// evaluations at a random point.  Returns the leaf evaluations and the
/// point.
pub fn verify_grand_product<T: Transcript>(
    num_vars: usize,
    claimed_v_0s: Vec<Option<Fp>>,
    transcript: &mut T,
) -> (r: Result<(Vec<Fp>, Vec<Fp>), Error>)
    requires
        old(transcript).wf(),
        forall|i: int|
            0 <= i < claimed_v_0s@.len() ==> ((#[trigger] claimed_v_0s@[i]) matches Some(v)
                ==> v.wf()),
        claimed_v_0s@.len() <= usize::MAX / 2,
    ensures
        final(transcript).wf(),
        r matches Ok(v) ==> all_wf(v.0@) && v.0@.len() == claimed_v_0s@.len() && all_wf(v.1@)
            && v.1@.len() == num_vars,
        (r is Ok) <==> gp_spec(
            num_vars as nat,
            claimed_v_0s@,
            old(transcript).reads(),
            old(transcript).chals(),
        ) is Some,
        r is Ok ==> (gp_spec(
            num_vars as nat,
            claimed_v_0s@,
            old(transcript).reads(),
            old(transcript).chals(),
        ) matches Some(s) && (r matches Ok(v) && vals(v.0@) == s.0 && v.1@ == s.1
            && final(transcript).reads() == s.2 && final(transcript).chals() == s.3)),
        r matches Err(e) ==> e == Error::Malformed || e == Error::TranscriptExhausted
            || e == Error::InvalidSumCheck,
        claimed_v_0s@.len() == 0 ==> r == Err::<(Vec<Fp>, Vec<Fp>), Error>(Error::Malformed),
        claimed_v_0s@.len() > 0 ==> r != Err::<(Vec<Fp>, Vec<Fp>), Error>(Error::Malformed),
{
    let ghost orig_reads: Seq<Fp> = old(transcript).reads();
    let ghost orig_chals: Seq<Fp> = old(transcript).chals();
    let b: usize = claimed_v_0s.len();
    if b == 0 {
        return Err(Error::Malformed);
    }
    let ghost full_claims: Option<(Seq<Fp>, Seq<Fp>)> = gp_claims(claimed_v_0s@, orig_reads);
    let mut resolved: Vec<Fp> = Vec::new();
    proof {
        assert(claimed_v_0s@.skip(0) =~= claimed_v_0s@);
        if full_claims is Some {
            assert(Seq::<Fp>::empty() + full_claims->Some_0.0 =~= full_claims->Some_0.0);
        }
        assert(resolved@ =~= Seq::<Fp>::empty());
    }
    let mut i: usize = 0;
    while i < b
        invariant
            i <= b,
            b == claimed_v_0s@.len(),
            b <= usize::MAX / 2,
            forall|j: int|
                0 <= j < claimed_v_0s@.len() ==> ((#[trigger] claimed_v_0s@[j]) matches Some(v)
                    ==> v.wf()),
            transcript.wf(),
            all_wf(resolved@),
            resolved@.len() == i,
            transcript.chals() == orig_chals,
            orig_reads == old(transcript).reads(),
            orig_chals == old(transcript).chals(),
            full_claims == gp_claims(claimed_v_0s@, orig_reads),
            cl_prepend(resolved@, gp_claims(claimed_v_0s@.skip(i as int), transcript.reads()))
                == full_claims,
        decreases b - i,
    {
        let ghost pre_reads: Seq<Fp> = transcript.reads();
        proof {
            assert(claimed_v_0s@.skip(i as int)[0] == claimed_v_0s@[i as int]);
            assert(claimed_v_0s@.skip(i as int).skip(1) =~= claimed_v_0s@.skip(i + 1));
        }
        match &claimed_v_0s[i] {
            Some(v) => {
                let felts: Vec<Fp> = vec![*v];
                transcript.common_felts(felts.as_slice());
                resolved.push(*v);
                proof {
                    let rest = gp_claims(claimed_v_0s@.skip(i + 1), transcript.reads());
                    assert(gp_claims(claimed_v_0s@.skip(i as int), pre_reads) == cl_prepend(
                        seq![*v],
                        rest,
                    ));
                    if rest is Some {
                        let s0 = rest->Some_0.0;
                        assert(resolved@ =~= resolved@.drop_last().push(*v));
                        assert(resolved@.drop_last() + (seq![*v] + s0) =~= resolved@ + s0);
                    }
                }
            },
            None => {
                let got: Fp = match transcript.read_felt_ext() {
                    Ok(g) => g,
                    Err(_) => {
                        proof {
                            assert(gp_claims(claimed_v_0s@.skip(i as int), pre_reads) is None);
                            assert(full_claims is None);
                        }
                        return Err(Error::TranscriptExhausted);
                    },
                };
                resolved.push(got);
                proof {
                    let rest = gp_claims(claimed_v_0s@.skip(i + 1), transcript.reads());
                    assert(gp_claims(claimed_v_0s@.skip(i as int), pre_reads) == cl_prepend(
                        seq![got],
                        rest,
                    ));
                    if rest is Some {
                        let s0 = rest->Some_0.0;
                        assert(resolved@ =~= resolved@.drop_last().push(got));
                        assert(resolved@.drop_last() + (seq![got] + s0) =~= resolved@ + s0);
                    }
                }
            },
        }
        i = i + 1;
    }
    proof {
        assert(claimed_v_0s@.skip(b as int) =~= Seq::<Option<Fp>>::empty());
        assert(gp_claims(Seq::<Option<Fp>>::empty(), transcript.reads()) == Some(
            (Seq::<Fp>::empty(), transcript.reads()),
        ));
        assert(resolved@ + Seq::<Fp>::empty() =~= resolved@);
        assert(full_claims == Some((resolved@, transcript.reads())));
    }
    let ghost ac_reads: Seq<Fp> = transcript.reads();
    let ghost ac_chals: Seq<Fp> = transcript.chals();
    if num_vars == 0 {
        let evals: Vec<Fp> = match transcript.read_felt_exts(2 * b) {
            Ok(v) => v,
            Err(_) => {
                proof {
                    assert(ac_reads.len() < 2 * b);
                    assert(gp_spec(num_vars as nat, claimed_v_0s@, orig_reads, orig_chals)
                        is None);
                }
                return Err(Error::TranscriptExhausted);
            },
        };
        let mut j: usize = 0;
        while j < b
            invariant
                j <= b,
                b == resolved@.len(),
                b == claimed_v_0s@.len(),
                1 <= b <= usize::MAX / 2,
                full_claims == gp_claims(claimed_v_0s@, orig_reads),
                full_claims == Some((resolved@, ac_reads)),
                orig_reads == old(transcript).reads(),
                orig_chals == old(transcript).chals(),
                ac_reads.len() >= 2 * b,
                evals@ == ac_reads.take(2 * b as int),
                transcript.wf(),
                transcript.reads() == ac_reads.skip(2 * b as int),
                transcript.chals() == orig_chals,
                ac_chals == orig_chals,
                all_wf(resolved@),
                all_wf(evals@),
                evals@.len() == 2 * b,
                forall|k: int|
                    0 <= k < j ==> (#[trigger] resolved@[k])@ == fmul(
                        evals@[2 * k]@,
                        evals@[2 * k + 1]@,
                    ),
            decreases b - j,
        {
            let prod: Fp = evals[2 * j].mul(evals[2 * j + 1]);
            if resolved[j] != prod {
                proof {
                    assert(vals(resolved@)[j as int] != pair_prods(evals@)[j as int]);
                    assert(vals(resolved@) != pair_prods(evals@));
                    assert(gp_spec(num_vars as nat, claimed_v_0s@, orig_reads, orig_chals)
                        is None);
                }
                return Err(Error::InvalidSumCheck);
            }
            j = j + 1;
        }
        proof {
            assert(vals(resolved@) =~= pair_prods(evals@));
            assert(gp_spec(num_vars as nat, claimed_v_0s@, orig_reads, orig_chals) == Some(
                (vals(resolved@), Seq::<Fp>::empty(), ac_reads.skip(2 * b as int), orig_chals),
            ));
        }
        let empty_point: Vec<Fp> = Vec::new();
        proof {
            assert(empty_point@ =~= Seq::<Fp>::empty());
        }
        Ok((resolved, empty_point))
    } else {
        let ghost rounds_full: Option<(Seq<int>, Seq<Fp>, Seq<Fp>, Seq<Fp>)> = gp_rounds(
            0,
            num_vars as nat,
            vals(resolved@),
            Seq::empty(),
            ac_reads,
            ac_chals,
        );
        proof {
            assert(gp_spec(num_vars as nat, claimed_v_0s@, orig_reads, orig_chals)
                == rounds_full);
        }
        let ghost resolved0: Seq<Fp> = resolved@;
        let mut claims: Vec<Fp> = resolved;
        let mut ys: Vec<Fp> = Vec::new();
        proof {
            assert(ys@ =~= Seq::<Fp>::empty());
        }
        let mut k: usize = 0;
        while k < num_vars
            invariant
                k <= num_vars,
                b == claimed_v_0s@.len(),
                1 <= b <= usize::MAX / 2,
                num_vars >= 1,
                claims@.len() == b,
                all_wf(claims@),
                ys@.len() == k,
                all_wf(ys@),
                transcript.wf(),
                orig_reads == old(transcript).reads(),
                orig_chals == old(transcript).chals(),
                rounds_full == gp_rounds(
                    0,
                    num_vars as nat,
                    vals(resolved0),
                    Seq::empty(),
                    ac_reads,
                    ac_chals,
                ),
                gp_spec(num_vars as nat, claimed_v_0s@, orig_reads, orig_chals) == rounds_full,
                gp_rounds(
                    k as nat,
                    num_vars as nat,
                    vals(claims@),
                    ys@,
                    transcript.reads(),
                    transcript.chals(),
                ) == rounds_full,
            decreases num_vars - k,
        {
            let ghost pre_reads: Seq<Fp> = transcript.reads();
            let ghost pre_chals: Seq<Fp> = transcript.chals();
            if k == 0 {
                let evals: Vec<Fp> = match transcript.read_felt_exts(2 * b) {
                    Ok(v) => v,
                    Err(_) => {
                        proof {
                            assert(vals(claims@).len() == b);
                            assert(gp_rounds(
                                0,
                                num_vars as nat,
                                vals(claims@),
                                ys@,
                                pre_reads,
                                pre_chals,
                            ) is None);
                            assert(rounds_full is None);
                        }
                        return Err(Error::TranscriptExhausted);
                    },
                };
                let mut j: usize = 0;
                let mut ok: bool = true;
                while j < b
                    invariant
                        j <= b,
                        b == claims@.len(),
                        b <= usize::MAX / 2,
                        all_wf(claims@),
                        all_wf(evals@),
                        evals@.len() == 2 * b,
                        ok ==> forall|q: int|
                            0 <= q < j ==> (#[trigger] claims@[q])@ == fmul(
                                evals@[2 * q]@,
                                evals@[2 * q + 1]@,
                            ),
                        !ok ==> vals(claims@) != pair_prods(evals@),
                    decreases b - j,
                {
                    let prod: Fp = evals[2 * j].mul(evals[2 * j + 1]);
                    if claims[j] != prod {
                        proof {
                            assert(vals(claims@)[j as int] != pair_prods(evals@)[j as int]);
                        }
                        ok = false;
                    }
                    j = j + 1;
                }
                if !ok {
                    proof {
                        assert(evals@ == pre_reads.take(2 * b as int));
                        assert(gp_rounds(
                            0,
                            num_vars as nat,
                            vals(claims@),
                            ys@,
                            pre_reads,
                            pre_chals,
                        ) is None);
                        assert(rounds_full is None);
                    }
                    return Err(Error::InvalidSumCheck);
                }
                proof {
                    assert(vals(claims@) =~= pair_prods(evals@));
                }
                let ghost old_claims: Seq<Fp> = claims@;
                let mu: Fp = transcript.squeeze_challenge();
                let folded: Vec<Fp> = layer_down_claim(evals.as_slice(), &mu);
                proof {
                    assert(vals(folded@) =~= fold_evals(evals@, mu));
                }
                claims = folded;
                ys = Vec::new();
                ys.push(mu);
                proof {
                    assert(ys@ =~= seq![mu]);
                    assert(evals@ == pre_reads.take(2 * b as int));
                    assert(mu == ch_head(pre_chals));
                    assert(transcript.chals() == ch_tail(pre_chals));
                    assert(transcript.reads() == pre_reads.skip(2 * b as int));
                    assert(gp_rounds(
                        0,
                        num_vars as nat,
                        vals(old_claims),
                        Seq::<Fp>::empty(),
                        pre_reads,
                        pre_chals,
                    ) == gp_rounds(
                        1,
                        num_vars as nat,
                        fold_evals(evals@, mu),
                        seq![mu],
                        pre_reads.skip(2 * b as int),
                        ch_tail(pre_chals),
                    ));
                }
            } else {
                let gamma: Fp = transcript.squeeze_challenge();
                let claim: Fp = sum_check_claim(claims.as_slice(), &gamma);
                let ghost sc_reads: Seq<Fp> = transcript.reads();
                let ghost sc_chals: Seq<Fp> = transcript.chals();
                let sc: (Fp, Vec<Fp>) = match crate::sumcheck::verify_sum_check(
                    k,
                    3,
                    claim,
                    transcript,
                ) {
                    Ok(v) => v,
                    Err(e) => {
                        proof {
                            assert(sc_rounds(
                                k as nat,
                                3,
                                claim@,
                                sc_reads,
                                sc_chals,
                            ) is None);
                            assert(gamma == ch_head(pre_chals));
                            assert(sc_chals == ch_tail(pre_chals));
                            assert(claim@ == poly_at(vals(claims@), gamma@));
                            assert(gp_rounds(
                                k as nat,
                                num_vars as nat,
                                vals(claims@),
                                ys@,
                                pre_reads,
                                pre_chals,
                            ) is None);
                            assert(rounds_full is None);
                        }
                        return Err(if e == Error::TranscriptExhausted {
                            Error::TranscriptExhausted
                        } else {
                            Error::InvalidSumCheck
                        });
                    },
                };
                let x_eval: Fp = sc.0;
                let x: Vec<Fp> = sc.1;
                let ghost scr = sc_rounds(k as nat, 3, claim@, sc_reads, sc_chals);
                proof {
                    assert(gamma == ch_head(pre_chals));
                    assert(sc_chals == ch_tail(pre_chals));
                    assert(claim@ == poly_at(vals(claims@), gamma@));
                    assert(scr matches Some(sv) && x_eval@ == sv.0 && x@ == sv.1
                        && transcript.reads() == sv.2 && transcript.chals() == sv.3);
                }
                let ghost post_sc_reads: Seq<Fp> = transcript.reads();
                let ghost post_sc_chals: Seq<Fp> = transcript.chals();
                let evals: Vec<Fp> = match transcript.read_felt_exts(2 * b) {
                    Ok(v) => v,
                    Err(_) => {
                        proof {
                            assert(post_sc_reads.len() < 2 * b);
                            assert(gp_rounds(
                                k as nat,
                                num_vars as nat,
                                vals(claims@),
                                ys@,
                                pre_reads,
                                pre_chals,
                            ) is None);
                            assert(rounds_full is None);
                        }
                        return Err(Error::TranscriptExhausted);
                    },
                };
                let mut prods: Vec<Fp> = Vec::new();
                let mut j: usize = 0;
                while j < b
                    invariant
                        j <= b,
                        b <= usize::MAX / 2,
                        all_wf(evals@),
                        evals@.len() == 2 * b,
                        prods@.len() == j,
                        all_wf(prods@),
                        forall|q: int|
                            0 <= q < j ==> (#[trigger] prods@[q])@ == fmul(
                                evals@[2 * q]@,
                                evals@[2 * q + 1]@,
                            ),
                    decreases b - j,
                {
                    prods.push(evals[2 * j].mul(evals[2 * j + 1]));
                    j = j + 1;
                }
                proof {
                    assert(vals(prods@) =~= pair_prods(evals@));
                }
                let eq_v: Fp = crate::sumcheck::eq_eval(ys.as_slice(), x.as_slice());
                let batched: Fp = sum_check_claim(prods.as_slice(), &gamma);
                let expected: Fp = eq_v.mul(batched);
                proof {
                    assert(evals@ == post_sc_reads.take(2 * b as int));
                    assert(vals(prods@) == pair_prods(evals@));
                    assert(expected@ == fmul(
                        eq_spec(vals(ys@), vals(x@)),
                        poly_at(pair_prods(evals@), gamma@),
                    ));
                }
                if x_eval != expected {
                    proof {
                        assert(gp_rounds(
                            k as nat,
                            num_vars as nat,
                            vals(claims@),
                            ys@,
                            pre_reads,
                            pre_chals,
                        ) is None);
                        assert(rounds_full is None);
                    }
                    return Err(Error::InvalidSumCheck);
                }
                let ghost old_claims: Seq<Fp> = claims@;
                let ghost old_ys: Seq<Fp> = ys@;
                let mu: Fp = transcript.squeeze_challenge();
                let folded: Vec<Fp> = layer_down_claim(evals.as_slice(), &mu);
                proof {
                    assert(vals(folded@) =~= fold_evals(evals@, mu));
                }
                claims = folded;
                ys = x;
                ys.push(mu);
                proof {
                    assert(mu == ch_head(post_sc_chals));
                    assert(transcript.chals() == ch_tail(post_sc_chals));
                    assert(transcript.reads() == post_sc_reads.skip(2 * b as int));
                    assert(gp_rounds(
                        k as nat,
                        num_vars as nat,
                        vals(old_claims),
                        old_ys,
                        pre_reads,
                        pre_chals,
                    ) == gp_rounds(
                        (k + 1) as nat,
                        num_vars as nat,
                        fold_evals(evals@, mu),
                        x@.push(mu),
                        post_sc_reads.skip(2 * b as int),
                        ch_tail(post_sc_chals),
                    ));
                    assert(ys@ == x@.push(mu));
                }
            }
            k = k + 1;
        }
        proof {
            assert(gp_rounds(
                num_vars as nat,
                num_vars as nat,
                vals(claims@),
                ys@,
                transcript.reads(),
                transcript.chals(),
            ) == Some((vals(claims@), ys@, transcript.reads(), transcript.chals())));
        }
        Ok((claims, ys))
    }
}


/// The total number of memories across a chunk list.
pub open spec fn total_mems(cs: Seq<Chunk>) -> nat
    decreases cs.len(),
{
    if cs.len() == 0 {
        0
    } else {
        cs[0].memory@.len() + total_mems(cs.skip(1))
    }
}

/// The floor base-2 logarithm.
pub open spec fn log2(n: nat) -> nat
    decreases n,
{
    if n <= 1 {
        0
    } else {
        1 + log2(n / 2)
    }
}

/// Computes the floor base-2 logarithm.
fn log2_floor(x: usize) -> (r: usize)
    requires
        x >= 1,
    ensures
        r == log2(x as nat),
{
    let mut v: usize = x;
    let mut r: usize = 0;
    while v > 1
        invariant
            1 <= v <= x,
            r + log2(v as nat) == log2(x as nat),
            r + v <= x,
        decreases v,
    {
        v = v / 2;
        r = r + 1;
    }
    r
}

/// Copies `v[start .. start + len]` out of a vector.
fn sub_vec(v: &Vec<Fp>, start: usize, len: usize) -> (r: Vec<Fp>)
    requires
        start + len <= v@.len(),
    ensures
        r@ == v@.subrange(start as int, start + len),
{
    let vl: usize = v.len();
    let mut r: Vec<Fp> = Vec::new();
    let mut i: usize = 0;
    while i < len
        invariant
            i <= len,
            start + len <= vl,
            vl == v@.len(),
            r@ == v@.subrange(start as int, start + i),
        decreases len - i,
    {
        proof {
            assert(v@.subrange(start as int, start + i + 1) =~= v@.subrange(
                start as int,
                start + i,
            ).push(v@[start + i]));
        }
        r.push(v[start + i]);
        i = i + 1;
    }
    r
}

/// A vector of `n` absent claims.
fn none_claims(n: usize) -> (r: Vec<Option<Fp>>)
    ensures
        r@ == Seq::new(n as nat, |i: int| None::<Fp>),
{
    let mut r: Vec<Option<Fp>> = Vec::new();
    let mut i: usize = 0;
    while i < n
        invariant
            i <= n,
            r@.len() == i,
            forall|j: int| 0 <= j < i ==> r@[j] is None,
        decreases n - i,
    {
        r.push(None);
        i = i + 1;
    }
    proof {
        assert(r@ =~= Seq::new(n as nat, |i: int| None::<Fp>));
    }
    r
}

/// The fingerprint phase over a chunk list: each chunk in turn reads its
/// openings and must satisfy all of its fingerprint equations; returns the
/// proof stream as it remains.
pub open spec fn chunks_phase(
    cs: Seq<Chunk>,
    rx: Seq<int>,
    wx: Seq<int>,
    iy: Seq<int>,
    fy: Seq<int>,
    y: Seq<Fp>,
    g: int,
    tau: int,
    reads: Seq<Fp>,
) -> Option<Seq<Fp>>
    decreases cs.len(),
{
    if cs.len() == 0 {
        Some(reads)
    } else {
        let m = cs[0].memory@.len();
        if reads.len() < 3 + m {
            None
        } else if !chunk_checks(cs[0], rx, wx, iy, fy, vals(y), reads.take(3 + m as int), g, tau) {
            None
        } else {
            chunks_phase(
                cs.skip(1),
                rx.skip(m as int),
                wx.skip(m as int),
                iy.skip(m as int),
                fy.skip(m as int),
                y,
                g,
                tau,
                reads.skip(3 + m as int),
            )
        }
    }
}

/// The whole memory-checking verification: a grand product over the
/// read/write side at `log2(num_reads)` variables, a grand product over
/// the init/final side at `chunk_bits` variables, then the per-chunk
/// fingerprint phase.
pub open spec fn verify_spec(
    chunks: Seq<Chunk>,
    num_reads: nat,
    g: int,
    tau: int,
    reads: Seq<Fp>,
    chals: Seq<Fp>,
) -> bool {
    let mt = total_mems(chunks) as int;
    let nones = Seq::new((2 * total_mems(chunks)) as nat, |i: int| None::<Fp>);
    match gp_spec(log2(num_reads), nones, reads, chals) {
        None => false,
        Some(s1) => match gp_spec(chunks[0].chunk_bits as nat, nones, s1.2, s1.3) {
            None => false,
            Some(s2) => chunks_phase(
                chunks,
                s1.0.take(mt),
                s1.0.skip(mt),
                s2.0.take(mt),
                s2.0.skip(mt),
                s2.1,
                g,
                tau,
                s2.2,
            ) is Some,
        },
    }
}

/// The polynomial data of every chunk is well formed: each memory's
/// subtable polynomial is declared over exactly the chunk's bit width.
pub open spec fn chunk_polys_wf(c: Chunk) -> bool {
    forall|j: int|
        0 <= j < c.memory@.len() ==> (#[trigger] c.memory@[j]).wf()
            && c.memory@[j].subtable_poly.num_vars == c.chunk_bits
}

/// The verifier of the memory-checking subprotocol: owns its chunks, all
/// of one bit width.
#[derive(Debug)]
pub struct MemoryCheckingVerifier {
    pub chunks: Vec<Chunk>,
}

impl MemoryCheckingVerifier {
    /// The chunk list is non-empty and uniform, and every chunk is well
    /// formed.
    pub open spec fn wf(self) -> bool {
        &&& self.chunks@.len() >= 1
        &&& forall|i: int|
            0 <= i < self.chunks@.len() ==> (#[trigger] self.chunks@[i]).wf()
                && self.chunks@[i].chunk_bits == self.chunks@[0].chunk_bits
    }

    /// Validates and packs a chunk list: an empty chunk list, a chunk with
    /// an empty memory list, or mixed chunk widths are rejected as
    /// malformed.
    pub fn new(chunks: Vec<Chunk>) -> (r: Result<MemoryCheckingVerifier, Error>)
        requires
            forall|i: int| 0 <= i < chunks@.len() ==> chunk_polys_wf(#[trigger] chunks@[i]),
        ensures
            (r is Ok) <==> (chunks@.len() >= 1 && forall|i: int|
                0 <= i < chunks@.len() ==> (#[trigger] chunks@[i]).memory@.len() >= 1
                    && chunks@[i].chunk_bits == chunks@[0].chunk_bits),
            r matches Ok(v) ==> v.chunks@ == chunks@ && v.wf(),
            r is Err ==> r == Err::<MemoryCheckingVerifier, Error>(Error::Malformed),
    {
        if chunks.len() == 0 {
            return Err(Error::Malformed);
        }
        let bits0: usize = chunks[0].chunk_bits();
        let mut i: usize = 0;
        while i < chunks.len()
            invariant
                i <= chunks@.len(),
                chunks@.len() >= 1,
                bits0 == chunks@[0].chunk_bits,
                forall|j: int|
                    0 <= j < i ==> (#[trigger] chunks@[j]).memory@.len() >= 1 && chunks@[j].chunk_bits
                        == bits0,
            decreases chunks@.len() - i,
        {
            if chunks[i].num_memories() == 0 || chunks[i].chunk_bits() != bits0 {
                return Err(Error::Malformed);
            }
            i = i + 1;
        }
        Ok(MemoryCheckingVerifier { chunks })
    }

    /// Runs the full memory-checking verification against a transcript.
    /// Succeeds exactly when both grand products verify and every chunk's
    /// every fingerprint equation holds.
    pub fn verify<T: Transcript>(
        &self,
        num_reads: usize,
        gamma: &Fp,
        tau: &Fp,
        transcript: &mut T,
    ) -> (r: Result<(), Error>)
        requires
            self.wf(),
            old(transcript).wf(),
            gamma.wf(),
            tau.wf(),
            num_reads >= 1,
            total_mems(self.chunks@) <= usize::MAX / 4,
        ensures
            final(transcript).wf(),
            (r is Ok) <==> verify_spec(
                self.chunks@,
                num_reads as nat,
                gamma@,
                tau@,
                old(transcript).reads(),
                old(transcript).chals(),
            ),
            r matches Err(e) ==> e == Error::TranscriptExhausted || e == Error::InvalidSumCheck
                || e == Error::FingerprintMismatch,
    {
        let ghost orig_reads: Seq<Fp> = old(transcript).reads();
        let ghost orig_chals: Seq<Fp> = old(transcript).chals();
        let mut num_memories: usize = 0;
        proof {
            assert(self.chunks@.skip(0) =~= self.chunks@);
        }
        let mut ci: usize = 0;
        while ci < self.chunks.len()
            invariant
                ci <= self.chunks@.len(),
                self.wf(),
                total_mems(self.chunks@) <= usize::MAX / 4,
                total_mems(self.chunks@) == num_memories + total_mems(self.chunks@.skip(ci as int)),
            decreases self.chunks@.len() - ci,
        {
            proof {
                assert(self.chunks@.skip(ci as int)[0] == self.chunks@[ci as int]);
                assert(self.chunks@.skip(ci as int).skip(1) =~= self.chunks@.skip(ci + 1));
            }
            num_memories = num_memories + self.chunks[ci].num_memories();
            ci = ci + 1;
        }
        proof {
            assert(self.chunks@.skip(self.chunks@.len() as int) =~= Seq::<Chunk>::empty());
            assert(num_memories == total_mems(self.chunks@));
            assert(total_mems(self.chunks@) >= self.chunks@[0].memory@.len()) by {
                assert(self.chunks@.skip(0) =~= self.chunks@);
            }
        }
        let mt: usize = num_memories;
        let memory_bits: usize = self.chunks[0].chunk_bits();
        let rw_vars: usize = log2_floor(num_reads);
        let ghost nones: Seq<Option<Fp>> = Seq::new((2 * mt) as nat, |i: int| None::<Fp>);
        let rw: (Vec<Fp>, Vec<Fp>) = match verify_grand_product(
            rw_vars,
            none_claims(2 * mt),
            transcript,
        ) {
            Ok(v) => v,
            Err(e) => {
                proof {
                    assert(gp_spec(log2(num_reads as nat), nones, orig_reads, orig_chals)
                        is None);
                    assert(!verify_spec(self.chunks@, num_reads as nat, gamma@, tau@, orig_reads,
                        orig_chals));
                }
                return Err(e);
            },
        };
        let read_write_xs: Vec<Fp> = rw.0;
        let x: Vec<Fp> = rw.1;
        let read_xs: Vec<Fp> = sub_vec(&read_write_xs, 0, mt);
        let write_xs: Vec<Fp> = sub_vec(&read_write_xs, mt, mt);
        let ghost s1 = gp_spec(log2(num_reads as nat), nones, orig_reads, orig_chals)->Some_0;
        proof {
            assert(vals(read_xs@) =~= s1.0.take(mt as int));
            assert(vals(write_xs@) =~= s1.0.skip(mt as int));
        }
        let if_res: (Vec<Fp>, Vec<Fp>) = match verify_grand_product(
            memory_bits,
            none_claims(2 * mt),
            transcript,
        ) {
            Ok(v) => v,
            Err(e) => {
                proof {
                    assert(gp_spec(memory_bits as nat, nones, s1.2, s1.3) is None);
                    assert(!verify_spec(self.chunks@, num_reads as nat, gamma@, tau@, orig_reads,
                        orig_chals));
                }
                return Err(e);
            },
        };
        let init_final_ys: Vec<Fp> = if_res.0;
        let y: Vec<Fp> = if_res.1;
        let init_ys: Vec<Fp> = sub_vec(&init_final_ys, 0, mt);
        let final_read_ys: Vec<Fp> = sub_vec(&init_final_ys, mt, mt);
        let ghost s2 = gp_spec(memory_bits as nat, nones, s1.2, s1.3)->Some_0;
        proof {
            assert(vals(init_ys@) =~= s2.0.take(mt as int));
            assert(vals(final_read_ys@) =~= s2.0.skip(mt as int));
        }
        let ghost phase_reads: Seq<Fp> = transcript.reads();
        let ghost phase_full: Option<Seq<Fp>> = chunks_phase(
            self.chunks@,
            vals(read_xs@),
            vals(write_xs@),
            vals(init_ys@),
            vals(final_read_ys@),
            y@,
            gamma@,
            tau@,
            phase_reads,
        );
        proof {
            assert(verify_spec(
                self.chunks@,
                num_reads as nat,
                gamma@,
                tau@,
                orig_reads,
                orig_chals,
            ) == (phase_full is Some));
            assert(self.chunks@.skip(0) =~= self.chunks@);
            assert(vals(read_xs@).skip(0) =~= vals(read_xs@));
            assert(vals(write_xs@).skip(0) =~= vals(write_xs@));
            assert(vals(init_ys@).skip(0) =~= vals(init_ys@));
            assert(vals(final_read_ys@).skip(0) =~= vals(final_read_ys@));
        }
        let mut off: usize = 0;
        let mut ci2: usize = 0;
        while ci2 < self.chunks.len()
            invariant
                ci2 <= self.chunks@.len(),
                self.wf(),
                transcript.wf(),
                gamma.wf(),
                tau.wf(),
                mt == total_mems(self.chunks@),
                mt <= usize::MAX / 4,
                total_mems(self.chunks@) == off + total_mems(self.chunks@.skip(ci2 as int)),
                read_xs@.len() == mt && write_xs@.len() == mt && init_ys@.len() == mt
                    && final_read_ys@.len() == mt,
                all_wf(read_xs@) && all_wf(write_xs@) && all_wf(init_ys@) && all_wf(
                    final_read_ys@,
                ),
                all_wf(y@),
                y@.len() == self.chunks@[0].chunk_bits,
                verify_spec(
                    self.chunks@,
                    num_reads as nat,
                    gamma@,
                    tau@,
                    old(transcript).reads(),
                    old(transcript).chals(),
                ) == (phase_full is Some),
                phase_full == chunks_phase(
                    self.chunks@.skip(ci2 as int),
                    vals(read_xs@).skip(off as int),
                    vals(write_xs@).skip(off as int),
                    vals(init_ys@).skip(off as int),
                    vals(final_read_ys@).skip(off as int),
                    y@,
                    gamma@,
                    tau@,
                    transcript.reads(),
                ),
            decreases self.chunks@.len() - ci2,
        {
            let ghost pre_reads: Seq<Fp> = transcript.reads();
            proof {
                assert(self.chunks@.skip(ci2 as int)[0] == self.chunks@[ci2 as int]);
                assert(self.chunks@.skip(ci2 as int).skip(1) =~= self.chunks@.skip(ci2 + 1));
                assert(total_mems(self.chunks@.skip(ci2 as int)) == self.chunks@[ci2 as int].memory@.len()
                    + total_mems(self.chunks@.skip(ci2 + 1)));
            }
            let m: usize = self.chunks[ci2].num_memories();
            let r_sl: Vec<Fp> = sub_vec(&read_xs, off, m);
            let w_sl: Vec<Fp> = sub_vec(&write_xs, off, m);
            let i_sl: Vec<Fp> = sub_vec(&init_ys, off, m);
            let f_sl: Vec<Fp> = sub_vec(&final_read_ys, off, m);
            let step = self.chunks[ci2].verify_memories(
                r_sl.as_slice(),
                w_sl.as_slice(),
                i_sl.as_slice(),
                f_sl.as_slice(),
                y.as_slice(),
                gamma,
                tau,
                transcript,
            );
            proof {
                let c = self.chunks@[ci2 as int];
                let mi = m as int;
                let rx_rest = vals(read_xs@).skip(off as int);
                let wx_rest = vals(write_xs@).skip(off as int);
                let iy_rest = vals(init_ys@).skip(off as int);
                let fy_rest = vals(final_read_ys@).skip(off as int);
                assert forall|q: int| 0 <= q < mi implies vals(r_sl@)[q] == rx_rest[q]
                    && vals(w_sl@)[q] == wx_rest[q] && vals(i_sl@)[q] == iy_rest[q] && vals(
                    f_sl@,
                )[q] == fy_rest[q] by {
                    assert(r_sl@[q] == read_xs@[off + q]);
                    assert(w_sl@[q] == write_xs@[off + q]);
                    assert(i_sl@[q] == init_ys@[off + q]);
                    assert(f_sl@[q] == final_read_ys@[off + q]);
                }
                if pre_reads.len() >= 3 + mi {
                    let opening = pre_reads.take(3 + mi);
                    assert forall|q: int| 0 <= q < mi implies mem_check(
                        c,
                        vals(r_sl@),
                        vals(w_sl@),
                        vals(i_sl@),
                        vals(f_sl@),
                        vals(y@),
                        opening,
                        gamma@,
                        tau@,
                        q,
                    ) == mem_check(
                        c,
                        rx_rest,
                        wx_rest,
                        iy_rest,
                        fy_rest,
                        vals(y@),
                        opening,
                        gamma@,
                        tau@,
                        q,
                    ) by {}
                    assert(chunk_checks(
                        c,
                        vals(r_sl@),
                        vals(w_sl@),
                        vals(i_sl@),
                        vals(f_sl@),
                        vals(y@),
                        opening,
                        gamma@,
                        tau@,
                    ) == chunk_checks(
                        c,
                        rx_rest,
                        wx_rest,
                        iy_rest,
                        fy_rest,
                        vals(y@),
                        opening,
                        gamma@,
                        tau@,
                    )) by {
                        if chunk_checks(c, vals(r_sl@), vals(w_sl@), vals(i_sl@), vals(f_sl@),
                            vals(y@), opening, gamma@, tau@) {
                            assert forall|q: int| 0 <= q < c.memory@.len() implies #[trigger] mem_check(
                                c, rx_rest, wx_rest, iy_rest, fy_rest, vals(y@), opening, gamma@,
                                tau@, q) by {
                                assert(mem_check(c, vals(r_sl@), vals(w_sl@), vals(i_sl@),
                                    vals(f_sl@), vals(y@), opening, gamma@, tau@, q));
                            }
                        }
                        if chunk_checks(c, rx_rest, wx_rest, iy_rest, fy_rest, vals(y@), opening,
                            gamma@, tau@) {
                            assert forall|q: int| 0 <= q < c.memory@.len() implies #[trigger] mem_check(
                                c, vals(r_sl@), vals(w_sl@), vals(i_sl@), vals(f_sl@), vals(y@),
                                opening, gamma@, tau@, q) by {
                                assert(mem_check(c, rx_rest, wx_rest, iy_rest, fy_rest, vals(y@),
                                    opening, gamma@, tau@, q));
                            }
                        }
                    }
                }
            }
            match step {
                Ok(_) => {},
                Err(e) => {
                    proof {
                        assert(chunks_phase(
                            self.chunks@.skip(ci2 as int),
                            vals(read_xs@).skip(off as int),
                            vals(write_xs@).skip(off as int),
                            vals(init_ys@).skip(off as int),
                            vals(final_read_ys@).skip(off as int),
                            y@,
                            gamma@,
                            tau@,
                            pre_reads,
                        ) is None);
                    }
                    return Err(e);
                },
            }
            proof {
                assert(vals(read_xs@).skip(off as int).skip(m as int) =~= vals(read_xs@).skip(
                    off + m,
                ));
                assert(vals(write_xs@).skip(off as int).skip(m as int) =~= vals(write_xs@).skip(
                    off + m,
                ));
                assert(vals(init_ys@).skip(off as int).skip(m as int) =~= vals(init_ys@).skip(
                    off + m,
                ));
                assert(vals(final_read_ys@).skip(off as int).skip(m as int) =~= vals(
                    final_read_ys@,
                ).skip(off + m));
            }
            off = off + m;
            ci2 = ci2 + 1;
        }
        proof {
            assert(self.chunks@.skip(self.chunks@.len() as int) =~= Seq::<Chunk>::empty());
            assert(phase_full is Some);
        }
        Ok(())
    }
}

} // verus!
