use lasso_mc::field::{Fp, P};
use lasso_mc::util::{chunk_info, div_ceil, horner, inner_product, num_threads, pow2_usize};

fn fp(x: u64) -> Fp {
    Fp::from_u64(x)
}

#[test]
fn field_add_wraps_at_modulus() {
    assert_eq!(fp(P - 1).add(fp(1)), fp(0));
    assert_eq!(fp(P - 1).add(fp(2)), fp(1));
    assert_eq!(fp(3).add(fp(4)), fp(7));
}

#[test]
fn field_sub_wraps_below_zero() {
    assert_eq!(fp(0).sub(fp(1)), fp(P - 1));
    assert_eq!(fp(10).sub(fp(4)), fp(6));
}

#[test]
fn field_mul_reduces() {
    // 2^32 · 2^32 = 2^64 ≡ 2^32 - 1 (mod P) for the Goldilocks prime.
    let t32 = fp(1u64 << 32);
    assert_eq!(t32.mul(t32), fp(0xFFFF_FFFF));
    assert_eq!(fp(7).mul(fp(6)), fp(42));
}

#[test]
fn field_pow_and_two_pow() {
    assert_eq!(fp(2).pow(10), fp(1024));
    assert_eq!(fp(5).pow(0), fp(1));
    assert_eq!(Fp::two_pow(16), fp(65536));
    assert_eq!(Fp::two_pow(64), fp(0xFFFF_FFFF));
}

#[test]
fn div_ceil_rounds_up() {
    assert_eq!(div_ceil(17, 16), 2);
    assert_eq!(div_ceil(16, 16), 1);
    assert_eq!(div_ceil(0, 5), 0);
    assert_eq!(div_ceil(1, 5), 1);
}

#[test]
fn horner_evaluates_polynomial() {
    // 1 + 2x + 3x^2 at x = 2 is 17.
    let cs = vec![fp(1), fp(2), fp(3)];
    assert_eq!(horner(&cs, &fp(2)), fp(17));
    let empty: Vec<Fp> = vec![];
    assert_eq!(horner(&empty, &fp(9)), fp(0));
}

#[test]
fn inner_product_matches_hand_sum() {
    let a = vec![fp(1), fp(2), fp(3)];
    let b = vec![fp(4), fp(5), fp(6)];
    assert_eq!(inner_product(&a, &b), fp(32));
}

#[test]
fn pow2_usize_values() {
    assert_eq!(pow2_usize(0), 1);
    assert_eq!(pow2_usize(16), 65536);
}

#[test]
fn chunk_info_covers_all_tasks() {
    // Runs against the real thread pool: the wrapper around the thread
    // count must report at least one thread.
    assert!(num_threads() >= 1);
    let (chunk_size, num_chunks) = chunk_info(5);
    assert!(chunk_size >= 1);
    assert!(num_chunks >= 1);
    assert!(chunk_size * num_chunks >= 5);
    let (cs1, nc1) = chunk_info(1);
    assert_eq!(cs1, 1);
    assert_eq!(nc1, 1);
}
