use lasso_mc::field::Fp;
use lasso_mc::memory_checking::{
    fingerprint, verify_grand_product, Chunk, Memory, MemoryCheckingVerifier,
};
use lasso_mc::range::RangeTable;
use lasso_mc::sumcheck::{eq_eval, layer_down_claim, sum_check_claim, verify_sum_check};
use lasso_mc::transcript::{ListTranscript, Transcript};
use lasso_mc::Error;

fn fp(x: u64) -> Fp {
    Fp::from_u64(x)
}

#[test]
fn fingerprint_concrete_value() {
    // h(a, v, t) with γ = 2, τ = 5, a = 3, v = 4, t = 7:
    // 3 + 2·4 + 4·7 - 5 = 34.
    let r = fingerprint(&fp(3), &fp(4), &fp(7), &fp(2), &fp(5));
    assert_eq!(r, fp(34));
}

#[test]
fn fingerprint_time_shift_is_gamma_squared() {
    let g = fp(9);
    let tau = fp(11);
    let (a, v, t) = (fp(5), fp(6), fp(8));
    let h1 = fingerprint(&a, &v, &t, &g, &tau);
    let h2 = fingerprint(&a, &v, &t.add(fp(1)), &g, &tau);
    assert_eq!(h2.sub(h1), g.mul(g));
}

#[test]
fn transcript_reads_and_squeezes_in_order() {
    let mut t = ListTranscript::new(vec![fp(4), fp(5)], vec![fp(6)]);
    assert_eq!(t.read_felt_ext(), Ok(fp(4)));
    assert_eq!(t.squeeze_challenge(), fp(6));
    assert_eq!(t.read_felts_as_exts(1).unwrap(), vec![fp(5)]);
    assert_eq!(t.read_felt_ext(), Err(Error::TranscriptExhausted));
    // Once the challenge list is exhausted, squeezing returns zero.
    assert_eq!(t.squeeze_challenge(), fp(0));
}

#[test]
fn sum_check_single_round_accepts_honest_prover() {
    // p(x) = 1 + x + x^2 + x^3: p(0) + p(1) = 5, p(2) = 15.
    let coeffs = vec![fp(1), fp(1), fp(1), fp(1)];
    let mut t = ListTranscript::new(coeffs, vec![fp(2)]);
    let (eval, point) = verify_sum_check(1, 3, fp(5), &mut t).unwrap();
    assert_eq!(eval, fp(15));
    assert_eq!(point, vec![fp(2)]);
}

#[test]
fn sum_check_rejects_wrong_claim() {
    let coeffs = vec![fp(1), fp(1), fp(1), fp(1)];
    let mut t = ListTranscript::new(coeffs, vec![fp(2)]);
    assert_eq!(verify_sum_check(1, 3, fp(6), &mut t), Err(Error::InvalidSumCheck));
}

#[test]
fn sum_check_reports_exhaustion() {
    let mut t = ListTranscript::new(vec![fp(1)], vec![fp(2)]);
    assert_eq!(verify_sum_check(1, 3, fp(5), &mut t), Err(Error::TranscriptExhausted));
}

#[test]
fn prover_hooks_match_contracts() {
    let claims = vec![fp(3), fp(4), fp(5)];
    // Σ γ^j · claims[j] at γ = 2: 3 + 8 + 20 = 31.
    assert_eq!(sum_check_claim(&claims, &fp(2)), fp(31));
    // (1 - μ)·l + μ·r lane by lane at μ = 3.
    let evals = vec![fp(1), fp(2), fp(10), fp(20)];
    let folded = layer_down_claim(&evals, &fp(3));
    // (1-3)·1 + 3·2 = 4; (1-3)·10 + 3·20 = 40.
    assert_eq!(folded, vec![fp(4), fp(40)]);
    // eq([1], [1]) = 1, eq([0], [1]) = 0.
    assert_eq!(eq_eval(&[fp(1)], &[fp(1)]), fp(1));
    assert_eq!(eq_eval(&[fp(0)], &[fp(1)]), fp(0));
}

#[test]
fn grand_product_terminal_round_checks_products() {
    // num_vars = 0, two lanes with supplied claims [6, 12]; the transcript
    // yields leaves [2, 3, 3, 4]: succeeds iff 6 = 2·3 and 12 = 3·4.
    let claims = vec![Some(fp(6)), Some(fp(12))];
    let mut t = ListTranscript::new(vec![fp(2), fp(3), fp(3), fp(4)], vec![]);
    let (leaves, point) = verify_grand_product(0, claims, &mut t).unwrap();
    assert_eq!(leaves, vec![fp(6), fp(12)]);
    assert_eq!(point, Vec::<Fp>::new());
}

#[test]
fn grand_product_terminal_round_rejects_mismatch() {
    let claims = vec![Some(fp(7)), Some(fp(12))];
    let mut t = ListTranscript::new(vec![fp(2), fp(3), fp(3), fp(4)], vec![]);
    assert_eq!(verify_grand_product(0, claims, &mut t), Err(Error::InvalidSumCheck));
}

#[test]
fn grand_product_rejects_empty_batch() {
    let mut t = ListTranscript::new(vec![], vec![]);
    assert_eq!(verify_grand_product(0, vec![], &mut t), Err(Error::Malformed));
}

#[test]
fn empty_chunk_list_is_malformed() {
    assert!(matches!(MemoryCheckingVerifier::new(vec![]), Err(Error::Malformed)));
}

#[test]
fn empty_memory_list_is_malformed() {
    let chunk = Chunk { chunk_index: 0, chunk_bits: 1, memory: vec![] };
    assert!(matches!(MemoryCheckingVerifier::new(vec![chunk]), Err(Error::Malformed)));
}

#[test]
fn mixed_chunk_widths_are_malformed() {
    let table = RangeTable::<1, 1>::new();
    let poly_a = table.subtable_polys_terms().remove(0);
    let poly_b = RangeTable::<2, 2>::new().subtable_polys_terms().remove(0);
    let c0 = Chunk::new(0, 1, Memory::new(0, poly_a));
    let c1 = Chunk::new(1, 2, Memory::new(1, poly_b));
    assert!(matches!(MemoryCheckingVerifier::new(vec![c0, c1]), Err(Error::Malformed)));
}

/// The verifier for a one-bit range table with a single read of value 1 at
/// address 1, and the honest transcript the matching prover would write.
///
/// With γ = 2, τ = 5 the fingerprints are:
///   read set:  { h(1, 1, 0) }          write set:      { h(1, 1, 1) }
///   init set:  { h(0, 0, 0), h(1, 1, 0) }
///   final set: { h(0, 0, 0), h(1, 1, 1) }   (address 1 read once)
///
/// The read/write grand product runs at log2(1) = 0 variables (the
/// terminal path); the init/final grand product runs at one variable with
/// folding challenge μ = 7.
fn one_bit_setup() -> (MemoryCheckingVerifier, Vec<Fp>, Vec<Fp>, Fp, Fp) {
    let g = fp(2);
    let tau = fp(5);
    let h = |a: Fp, v: Fp, t: Fp| fingerprint(&a, &v, &t, &g, &tau);

    let table = RangeTable::<1, 1>::new();
    let poly = table.subtable_polys_terms().remove(0);
    let chunk = Chunk::new(0, 1, Memory::new(0, poly));
    let mc = MemoryCheckingVerifier::new(vec![chunk]).unwrap();

    let h110 = h(fp(1), fp(1), fp(0));
    let h111 = h(fp(1), fp(1), fp(1));
    let h000 = h(fp(0), fp(0), fp(0));

    let reads = vec![
        // read/write grand product, terminal: claims then leaf pairs.
        h110,
        h111,
        h110,
        fp(1),
        h111,
        fp(1),
        // init/final grand product: claims (lane products), then the two
        // children of each lane.
        h000.mul(h110),
        h000.mul(h111),
        h000,
        h110,
        h000,
        h111,
        // per-chunk openings: dim(x), read_ts(x), final_cts(y), e(x),
        // where y = [7] so final_cts(y) = (1-7)·0 + 7·1 = 7.
        fp(1),
        fp(0),
        fp(7),
        fp(1),
    ];
    let chals = vec![fp(7)];
    (mc, reads, chals, g, tau)
}

#[test]
fn honest_transcript_verifies() {
    let (mc, reads, chals, g, tau) = one_bit_setup();
    let mut t = ListTranscript::new(reads, chals);
    assert_eq!(mc.verify(1, &g, &tau, &mut t), Ok(()));
}

#[test]
fn flipped_opening_fails_fingerprint_check() {
    let (mc, mut reads, chals, g, tau) = one_bit_setup();
    let last = reads.len() - 1;
    reads[last] = reads[last].add(fp(1));
    let mut t = ListTranscript::new(reads, chals);
    assert_eq!(mc.verify(1, &g, &tau, &mut t), Err(Error::FingerprintMismatch));
}

#[test]
fn flipped_leaf_fails_product_check() {
    let (mc, mut reads, chals, g, tau) = one_bit_setup();
    // Corrupt a leaf of the init/final grand product's last (and only)
    // round.
    reads[11] = reads[11].add(fp(1));
    let mut t = ListTranscript::new(reads, chals);
    assert_eq!(mc.verify(1, &g, &tau, &mut t), Err(Error::InvalidSumCheck));
}

#[test]
fn truncated_transcript_is_exhausted() {
    let (mc, mut reads, chals, g, tau) = one_bit_setup();
    reads.truncate(3);
    let mut t = ListTranscript::new(reads, chals);
    assert_eq!(mc.verify(1, &g, &tau, &mut t), Err(Error::TranscriptExhausted));
}

#[test]
fn chunk_accessors() {
    let table = RangeTable::<1, 1>::new();
    let poly = table.subtable_polys_terms().remove(0);
    let poly2 = RangeTable::<1, 1>::new().subtable_polys_terms().remove(0);
    let mut chunk = Chunk::new(3, 1, Memory::new(7, poly));
    assert_eq!(chunk.num_memories(), 1);
    assert_eq!(chunk.chunk_bits(), 1);
    chunk.add_memory(Memory::new(9, poly2));
    assert_eq!(chunk.num_memories(), 2);
    assert_eq!(chunk.memory_indices(), vec![7, 9]);
    assert_eq!(chunk.chunk_polys_index(2, 3), vec![6, 9, 12]);
}

/// One lane over four leaves `[2, 3, 4, 5]` (leaf poly `W(b0, b1) =
/// leaf[b0 + 2·b1]`), grand product `120`, with the honest prover's
/// messages: layer children `8 = 2·4` and `15 = 3·5`, then one sum-check
/// round with polynomial `p(X) = eq(3, X)·(2 + X)·(4 + X) = -16 + 28X +
/// 28X² + 5X³`, challenges `μ0 = 3, γ = 11, x1 = 7, μ1 = 10`, and final
/// children `L(7) = 9`, `R(7) = 11`.
fn two_round_grand_product_transcript() -> (Vec<Fp>, Vec<Fp>) {
    let m16 = fp(0).sub(fp(16));
    let reads = vec![
        fp(120),
        fp(8),
        fp(15),
        m16,
        fp(28),
        fp(28),
        fp(5),
        fp(9),
        fp(11),
    ];
    let chals = vec![fp(3), fp(11), fp(7), fp(10)];
    (reads, chals)
}

#[test]
fn grand_product_two_rounds_with_sum_check() {
    let (reads, chals) = two_round_grand_product_transcript();
    let mut t = ListTranscript::new(reads, chals);
    let (leaves, point) = verify_grand_product(2, vec![None], &mut t).unwrap();
    // The folded leaf claim equals the leaf polynomial at the final point:
    // W(7, 10) = 2 + 7 + 2·10 = 29.
    assert_eq!(leaves, vec![fp(29)]);
    assert_eq!(point, vec![fp(7), fp(10)]);
}

#[test]
fn grand_product_rejects_corrupted_round_polynomial() {
    let (mut reads, chals) = two_round_grand_product_transcript();
    // Corrupt one coefficient of the sum-check round polynomial.
    reads[4] = reads[4].add(fp(1));
    let mut t = ListTranscript::new(reads, chals);
    assert_eq!(verify_grand_product(2, vec![None], &mut t), Err(Error::InvalidSumCheck));
}

#[test]
fn grand_product_cross_checks_final_evaluation() {
    let (mut reads, chals) = two_round_grand_product_transcript();
    // Corrupt a leaf read in the last round: the sum-check evaluation no
    // longer matches eq(y, x) times the batched product of the children.
    reads[7] = reads[7].add(fp(1));
    let mut t = ListTranscript::new(reads, chals);
    assert_eq!(verify_grand_product(2, vec![None], &mut t), Err(Error::InvalidSumCheck));
}

fn neg(x: u64) -> Fp {
    fp(0).sub(fp(x))
}

/// The verifier for a two-bit range table with a single read of value 1 at
/// address 1 (γ = 2, τ = 5), and the honest transcript: the init/final
/// grand product now runs over two variables, so one real sum-check round
/// is exercised, including the cross-check of its final evaluation.
///
/// Leaf fingerprints (h(j, j, cts_j) over addresses j = 0..3):
///   init:  [-5, -2, 1, 4]        final: [-5, 2, 1, 4]
/// Layer products give claims 40 and -40; with challenges μ0 = 3, γ = 11,
/// x1 = 7, μ1 = 10 the honest round polynomial is
/// p(X) = eq(3, X)·(L_i·R_i + 11·L_f·R_f)(X) = 120 - 100X - 980X² + 1200X³
/// and the final openings sit at y = [7, 10], where the final-counts
/// polynomial y0·(1 - y1) evaluates to -63.
fn two_bit_setup() -> (MemoryCheckingVerifier, Vec<Fp>, Vec<Fp>, Fp, Fp) {
    let g = fp(2);
    let tau = fp(5);

    let table = RangeTable::<2, 2>::new();
    let poly = table.subtable_polys_terms().remove(0);
    let chunk = Chunk::new(0, 2, Memory::new(0, poly));
    let mc = MemoryCheckingVerifier::new(vec![chunk]).unwrap();

    let reads = vec![
        // read/write grand product, terminal: claims then leaf pairs.
        neg(2),
        fp(2),
        neg(2),
        fp(1),
        fp(2),
        fp(1),
        // init/final grand product: claims, then the round-0 children.
        fp(40),
        neg(40),
        neg(5),
        neg(8),
        neg(5),
        fp(8),
        // the sum-check round polynomial of round 1,
        fp(120),
        neg(100),
        neg(980),
        fp(1200),
        // the round-1 children,
        fp(16),
        fp(22),
        fp(44),
        fp(22),
        // per-chunk openings: dim(x), read_ts(x), final_cts(y), e(x).
        fp(1),
        fp(0),
        neg(63),
        fp(1),
    ];
    let chals = vec![fp(3), fp(11), fp(7), fp(10)];
    (mc, reads, chals, g, tau)
}

#[test]
fn honest_transcript_with_sum_check_round_verifies() {
    let (mc, reads, chals, g, tau) = two_bit_setup();
    let mut t = ListTranscript::new(reads, chals);
    assert_eq!(mc.verify(1, &g, &tau, &mut t), Ok(()));
}

#[test]
fn corrupted_round_polynomial_fails_verify() {
    let (mc, mut reads, chals, g, tau) = two_bit_setup();
    reads[13] = reads[13].add(fp(1));
    let mut t = ListTranscript::new(reads, chals);
    assert_eq!(mc.verify(1, &g, &tau, &mut t), Err(Error::InvalidSumCheck));
}

#[test]
fn corrupted_final_opening_fails_verify() {
    let (mc, mut reads, chals, g, tau) = two_bit_setup();
    let last = reads.len() - 1;
    reads[last] = reads[last].add(fp(1));
    let mut t = ListTranscript::new(reads, chals);
    assert_eq!(mc.verify(1, &g, &tau, &mut t), Err(Error::FingerprintMismatch));
}
