use lasso_mc::field::Fp;
use lasso_mc::range::{
    chunk_operand_usize, FullLimbSubtable, RangeStategy, RangeSubtable, RangeTable,
    ReminderSubtable,
};
use lasso_mc::terms::id_poly_eval;

fn fp(x: u64) -> Fp {
    Fp::from_u64(x)
}

/// The `n` low bits of `x`, least significant first.
fn bits_le(x: u128, n: usize) -> Vec<bool> {
    (0..n).map(|i| (x >> i) & 1 == 1).collect()
}

/// Reads a little-endian bit vector back as an integer.
fn bits_to_u128(bits: &[bool]) -> u128 {
    bits.iter().rev().fold(0u128, |acc, b| (acc << 1) | (*b as u128))
}

#[test]
fn range_test() {
    let index_bits = bits_le(100, 64);

    let table = RangeTable::<64, 16>::new();

    println!("chunk_bits {:?}", table.chunk_bits());

    let indices = RangeTable::<128, 16>::new().subtable_indices(index_bits);

    println!("{:?}", indices);
}

#[test]
fn chunk_bits_and_indices_64_16() {
    let table = RangeTable::<64, 16>::new();
    assert_eq!(table.chunk_bits(), vec![16, 16, 16, 16]);
    assert_eq!(table.num_memories(), 4);
    let chunks = table.subtable_indices(bits_le(100, 64));
    assert_eq!(chunks.len(), 4);
    for c in &chunks {
        assert_eq!(c.len(), 16);
    }
    let values: Vec<u128> = chunks.iter().map(|c| bits_to_u128(c)).collect();
    assert_eq!(values, vec![100, 0, 0, 0]);
}

#[test]
fn subtable_indices_128_16() {
    let table = RangeTable::<128, 16>::new();
    let chunks = table.subtable_indices(bits_le(100, 128));
    assert_eq!(chunks.len(), 8);
    for c in &chunks {
        assert_eq!(c.len(), 16);
    }
    let values: Vec<u128> = chunks.iter().map(|c| bits_to_u128(c)).collect();
    assert_eq!(values, vec![100, 0, 0, 0, 0, 0, 0, 0]);
}

#[test]
fn limb_concat_reconstructs_value() {
    let bits = bits_le(0xDEAD_BEEF_CAFE, 48);
    let chunks = RangeTable::<48, 16>::new().subtable_indices(bits.clone());
    let flat: Vec<bool> = chunks.into_iter().flatten().collect();
    assert_eq!(flat, bits);
}

#[test]
fn remainder_table_17_16() {
    let table = RangeTable::<17, 16>::new();
    assert_eq!(table.chunk_bits(), vec![16, 1]);
    assert_eq!(table.num_memories(), 2);
    assert_eq!(table.memory_to_subtable_index(0), 0);
    assert_eq!(table.memory_to_subtable_index(1), 1);
    assert_eq!(table.memory_to_chunk_index(0), 0);
    assert_eq!(table.memory_to_chunk_index(1), 1);
    let polys = table.subtable_polys();
    assert_eq!(polys.len(), 2);
    assert_eq!(polys[0].len(), 65536);
    assert_eq!(polys[1], vec![fp(0), fp(1)]);
    let subs = table.subtables();
    assert_eq!(subs.len(), 2);
    assert!(matches!(subs[0], RangeSubtable::Full(_)));
    assert!(matches!(subs[1], RangeSubtable::Reminder(_)));
}

#[test]
fn exact_table_has_single_subtable() {
    let table = RangeTable::<16, 16>::new();
    assert_eq!(table.chunk_bits(), vec![16]);
    assert_eq!(table.num_memories(), 1);
    let subs = table.subtables();
    assert_eq!(subs.len(), 1);
    assert!(matches!(subs[0], RangeSubtable::Full(_)));
    let polys = table.subtable_polys();
    assert_eq!(polys.len(), 1);
    assert_eq!(polys[0].len(), 65536);
    assert_eq!(polys[0][100], fp(100));
}

#[test]
fn full_limb_mle_reads_binary_point() {
    let sub = FullLimbSubtable::<4>;
    let point = vec![fp(0), fp(1), fp(0), fp(1)];
    assert_eq!(sub.evaluate_mle(&point), fp(10));
    let ones = vec![fp(1), fp(1), fp(1)];
    assert_eq!(sub.evaluate_mle(&ones), fp(7));
}

#[test]
fn full_limb_materialize_is_identity() {
    let sub = FullLimbSubtable::<4>;
    let evals = sub.materialize(16);
    assert_eq!(evals.len(), 16);
    for (i, e) in evals.iter().enumerate() {
        assert_eq!(*e, fp(i as u64));
    }
}

#[test]
fn remainder_materialize_length_two() {
    let sub = ReminderSubtable::<17, 16>;
    let evals = sub.materialize(65536);
    assert_eq!(evals, vec![fp(0), fp(1)]);
}

#[test]
fn remainder_mle_vanishes_outside_subcube() {
    // NUM_BITS = 5, LIMB_BITS = 4: the remainder table is defined on one
    // variable, embedded in four.  On a Boolean point with a high bit set
    // the extension vanishes; on an in-range point it reads the low bits.
    let sub = ReminderSubtable::<5, 4>;
    let inside = vec![fp(1), fp(0), fp(0), fp(0)];
    assert_eq!(sub.evaluate_mle(&inside), fp(1));
    let outside = vec![fp(1), fp(0), fp(1), fp(0)];
    assert_eq!(sub.evaluate_mle(&outside), fp(0));
}

#[test]
fn combine_lookups_weighs_limbs() {
    let table = RangeTable::<48, 16>::new();
    let operands = vec![fp(1), fp(2), fp(3)];
    let w = 1u64 << 16;
    let expected = fp(1 + 2 * w + 3 * w * w);
    assert_eq!(table.combine_lookups(&operands), expected);
    let strategy = RangeStategy::<48, 16>;
    assert_eq!(strategy.combine_lookups(&operands), expected);
}

#[test]
fn strategy_matches_table() {
    let strategy = RangeStategy::<17, 16>;
    assert_eq!(strategy.chunk_bits(), vec![16, 1]);
    assert_eq!(strategy.subtables().len(), 2);
    assert_eq!(strategy.output(&fp(42)), fp(42));
    let chunks = strategy.subtable_indices(bits_le(100, 17));
    assert_eq!(chunks.len(), 2);
    assert_eq!(chunks[0].len(), 16);
    assert_eq!(chunks[1].len(), 1);
}

#[test]
fn identity_polynomial_round_trip() {
    // id_poly at the binary expansion of 11 (low bit first) gives 11 back.
    let point = vec![fp(1), fp(1), fp(0), fp(1)];
    assert_eq!(id_poly_eval(&point), fp(11));
    assert_eq!(id_poly_eval(&[]), fp(0));
}

#[test]
fn terms_form_matches_identity_mle() {
    let table = RangeTable::<17, 16>::new();
    let terms = table.subtable_polys_terms();
    assert_eq!(terms.len(), 2);
    assert_eq!(terms[0].num_vars, 16);
    assert_eq!(terms[1].num_vars, 1);
    let mut point = vec![fp(0); 16];
    point[0] = fp(1);
    point[5] = fp(1);
    assert_eq!(terms[0].evaluate(&point), fp(1 + 32));
    assert_eq!(terms[1].evaluate(&[fp(9)]), fp(9));
}

#[test]
fn chunk_operand_big_endian_chunks() {
    let x = 100u64 << 16;
    let chunks = chunk_operand_usize(x, 4, 16);
    assert_eq!(chunks, vec![0, 0, 100, 0]);
    let y = 0xABCD_1234_5678_9999u64;
    assert_eq!(chunk_operand_usize(y, 4, 16), vec![0xABCD, 0x1234, 0x5678, 0x9999]);
}
