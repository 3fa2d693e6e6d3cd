use sha256_circuit::bits::mask;
use sha256_circuit::constants::{initial_word_value, round_constant_value};
use sha256_circuit::cs::{compress, eval_table, spread, ConstraintSystem, Num, Row, TableKind};
use sha256_circuit::field::{fadd, fmul, reduce, MODULUS};
use sha256_circuit::gadgets::{
    add32, bitwise3, chunk_count, decompose, enforce_decomposition, majority_by_spread, rotate_right,
    shift_right, to_sparse,
};
use sha256_circuit::sha256::{
    add_words, lookup3, majority, majority_sparse, round, sigma, GlobalStrategy, Sha256GadgetParams,
    Strategy,
};

#[test]
fn field_addition_wraps_at_the_modulus() {
    assert_eq!(MODULUS, 18446744069414584321);
    assert_eq!(fadd(MODULUS - 1, 1), 0);
    assert_eq!(fadd(MODULUS - 1, 5), 4);
    assert_eq!(fadd(3, 4), 7);
    assert_eq!(fadd(u64::MAX, u64::MAX), 8589934588);
    assert_eq!(reduce(MODULUS), 0);
    assert_eq!(reduce(MODULUS + 2), 2);
    assert_eq!(reduce(17), 17);
}

#[test]
fn field_multiplication_reduces() {
    assert_eq!(fmul(3, 5), 15);
    assert_eq!(fmul(1 << 32, 1 << 32), 4294967295);
    assert_eq!(fmul(MODULUS - 1, MODULUS - 1), 1);
    assert_eq!(fmul(MODULUS - 1, 2), MODULUS - 2);
}

#[test]
fn constants_are_the_standard_ones() {
    assert_eq!(round_constant_value(0), 0x428a2f98);
    assert_eq!(round_constant_value(17), 0xefbe4786);
    assert_eq!(round_constant_value(63), 0xc67178f2);
    assert_eq!(initial_word_value(0), 0x6a09e667);
    assert_eq!(initial_word_value(7), 0x5be0cd19);
}

#[test]
fn masks_and_chunk_counts() {
    assert_eq!(mask(0), 0);
    assert_eq!(mask(1), 1);
    assert_eq!(mask(8), 255);
    assert_eq!(mask(32), 0xFFFF_FFFF);
    assert_eq!(chunk_count(1), 32);
    assert_eq!(chunk_count(8), 4);
    assert_eq!(chunk_count(16), 2);
    assert_eq!(chunk_count(32), 1);
}

#[test]
fn table_values() {
    assert_eq!(eval_table(TableKind::Xor3, 4, 0b1100, 0b1010, 0b0110), 0b0000);
    assert_eq!(eval_table(TableKind::Majority, 4, 0b1100, 0b1010, 0b0110), 0b1110);
    assert_eq!(eval_table(TableKind::Choice, 4, 0b1100, 0b1010, 0b0110), 0b1010);
    assert_eq!(eval_table(TableKind::Spread, 4, 0b1011, 0, 0), 0b01000101);
    // digits 2, 1, 3, 0 from the low end: majority where a digit is two or more
    assert_eq!(eval_table(TableKind::MajorityDecode, 4, 0b00_11_01_10, 0, 0), 0b0101);
}

#[test]
fn spread_and_compress() {
    assert_eq!(spread(0), 0);
    assert_eq!(spread(1), 1);
    assert_eq!(spread(0b11), 0b0101);
    assert_eq!(spread(0xFF), 0x5555);
    assert_eq!(spread(0xFFFF), 0x5555_5555);
    assert_eq!(spread(0x8001), 0x4000_0001);
    assert_eq!(compress(0x5555_5555), 0xFFFF);
    assert_eq!(compress(0b0110), 0b10);
    assert_eq!(compress(spread(0xA5C3)), 0xA5C3);
}

#[test]
fn sparse_form_of_the_chunks() {
    let mut cs = ConstraintSystem::new();
    let x = cs.allocate(0x0000_03FF);
    let d = decompose(&mut cs, x, 8);
    let sparse = to_sparse(&mut cs, &d);
    let values: Vec<u64> = sparse.iter().map(|v| cs.get(*v)).collect();
    assert_eq!(values, vec![0x5555, 0b0101, 0, 0]);
    assert!(cs.is_satisfied());
    match sparse[1] {
        Num::Allocated(i) => cs.set_witness(i, 0b0110),
        Num::Constant(_) => unreachable!(),
    }
    assert!(!cs.is_satisfied());
}

#[test]
fn decompose_gives_the_chunks_low_first() {
    let mut cs = ConstraintSystem::new();
    let x = cs.allocate(0x12345678);
    let d = decompose(&mut cs, x, 8);
    assert_eq!(d.width, 8);
    assert_eq!(d.word, x);
    let chunks: Vec<u64> = d.chunks.iter().map(|c| cs.get(*c)).collect();
    assert_eq!(chunks, vec![0x78, 0x56, 0x34, 0x12]);
    assert_eq!(cs.n(), 4);
    assert!(cs.is_satisfied());
    let bits = decompose(&mut cs, x, 1);
    assert_eq!(bits.chunks.len(), 32);
    assert_eq!(cs.get(bits.chunks[3]), 1);
    assert_eq!(cs.get(bits.chunks[0]), 0);
    assert!(cs.is_satisfied());
}

#[test]
fn decompose_of_a_value_beyond_32_bits_is_unsatisfiable() {
    let mut cs = ConstraintSystem::new();
    let x = cs.allocate(0x1_0000_0001);
    let d = decompose(&mut cs, x, 16);
    assert_eq!(cs.get(d.chunks[0]), 1);
    assert_eq!(cs.get(d.chunks[1]), 0);
    assert!(!cs.is_satisfied());
}

#[test]
fn chunk_outside_its_width_is_unsatisfiable() {
    let mut cs = ConstraintSystem::new();
    let x = cs.allocate(0x0000_0300);
    let d = decompose(&mut cs, x, 8);
    assert!(cs.is_satisfied());
    // move the bits of the second chunk into the first: the weighted sum is
    // still the word, but the first chunk no longer fits eight bits
    let (first, second) = match (d.chunks[0], d.chunks[1]) {
        (Num::Allocated(a), Num::Allocated(b)) => (a, b),
        _ => unreachable!(),
    };
    cs.set_witness(first, 0x300);
    cs.set_witness(second, 0);
    assert!(!cs.is_satisfied());
    cs.set_witness(first, 0);
    cs.set_witness(second, 3);
    assert!(cs.is_satisfied());
}

#[test]
fn overflowing_chunk_fails_its_range_row() {
    let mut cs = ConstraintSystem::new();
    let low = cs.allocate(256);
    let high = cs.allocate(0);
    let value = cs.allocate(256);
    let row = Row::Range { c0: low, c1: high, c2: Num::Constant(0), w0: 8, w1: 8, w2: 0, value };
    assert!(!cs.check_row(&row));
    cs.enforce(row);
    assert!(!cs.is_satisfied());
    let good = Row::Range { c0: high, c1: Num::Constant(1), c2: Num::Constant(0), w0: 8, w1: 8, w2: 0, value };
    assert!(cs.check_row(&good));
}

#[test]
fn wrong_chunks_do_not_decompose() {
    let mut cs = ConstraintSystem::new();
    let x = cs.allocate(0xAABBCCDD);
    let lo = cs.allocate(0xCCDD);
    let hi = cs.allocate(0xAABA);
    enforce_decomposition(&mut cs, x, &vec![lo, hi], 16);
    assert!(!cs.is_satisfied());
    let mut ok = ConstraintSystem::new();
    let x = ok.allocate(0xAABBCCDD);
    let lo = ok.allocate(0xCCDD);
    let hi = ok.allocate(0xAABB);
    enforce_decomposition(&mut ok, x, &vec![lo, hi], 16);
    assert!(ok.is_satisfied());
}

#[test]
fn rotation_by_32_is_the_identity() {
    for word in [0u32, 1, 0x8000_0000, 0x12345678, 0xFFFF_FFFF] {
        let mut cs = ConstraintSystem::new();
        let x = cs.allocate(word as u64);
        let bits = decompose(&mut cs, x, 1);
        let r = rotate_right(&mut cs, &bits, 32);
        assert_eq!(cs.get(r.word), word as u64);
        let z = rotate_right(&mut cs, &bits, 0);
        assert_eq!(cs.get(z.word), word as u64);
        assert!(cs.is_satisfied());
    }
}

#[test]
fn rotations_compose() {
    let word: u32 = 0x9e3779b9;
    for a in [0u64, 1, 7, 13, 22, 31, 32] {
        for b in [0u64, 2, 6, 19, 25, 32] {
            let mut cs = ConstraintSystem::new();
            let x = cs.allocate(word as u64);
            let bits = decompose(&mut cs, x, 1);
            let once = rotate_right(&mut cs, &bits, a);
            let twice = rotate_right(&mut cs, &once, b);
            let direct = rotate_right(&mut cs, &bits, (a + b) % 32);
            assert_eq!(cs.get(twice.word), cs.get(direct.word));
            assert_eq!(cs.get(twice.word), word.rotate_right(((a + b) % 32) as u32) as u64);
            assert!(cs.is_satisfied());
        }
    }
}

#[test]
fn rotation_and_shift_values() {
    let mut cs = ConstraintSystem::new();
    let x = cs.allocate(0x0000_00F1);
    let bits = decompose(&mut cs, x, 1);
    let before = cs.values.len();
    let r = rotate_right(&mut cs, &bits, 4);
    assert_eq!(cs.get(r.word), 0x1000_000F);
    // only the rotated word is new: the bits are the old variables
    assert_eq!(cs.values.len(), before + 32);
    assert_eq!(r.chunks[0], bits.chunks[4]);
    let s = shift_right(&mut cs, &bits, 4);
    assert_eq!(cs.get(s.word), 0x0000_000F);
    assert_eq!(s.chunks[31], Num::Constant(0));
    assert_eq!(s.chunks[0], bits.chunks[4]);
    assert!(cs.is_satisfied());
}

#[test]
fn modular_add_discards_the_carry() {
    let mut cs = ConstraintSystem::new();
    let a = cs.allocate(4294967295);
    let b = cs.allocate(2);
    let sum = add32(&mut cs, &vec![a, b], 8);
    assert_eq!(cs.get(sum.word), 1);
    assert_eq!(sum.width, 8);
    assert!(cs.is_satisfied());
}

#[test]
fn modular_add_of_five_words() {
    let mut cs = ConstraintSystem::new();
    let words: Vec<Num> = (0..5).map(|_| cs.allocate(0xFFFF_FFFF)).collect();
    let sum = add32(&mut cs, &words, 16);
    assert_eq!(cs.get(sum.word), 0xFFFF_FFFB);
    assert!(cs.is_satisfied());
    let r = add_words(&mut cs, words[0], Num::Constant(7), words[1], words[2], words[3], 2, 4);
    assert_eq!(cs.get(r), 6);
    assert!(cs.is_satisfied());
}

#[test]
fn modular_add_with_a_carry_too_large_is_unsatisfiable() {
    let mut cs = ConstraintSystem::new();
    let a = cs.allocate(1 << 33);
    let b = cs.allocate(5);
    let sum = add32(&mut cs, &vec![a, b], 8);
    assert_eq!(cs.get(sum.word), 5);
    assert!(!cs.is_satisfied());
}

#[test]
fn bitwise_functions_on_words() {
    let (x, y, z): (u32, u32, u32) = (0xDEADBEEF, 0x01234567, 0x89ABCDEF);
    for width in [1u64, 2, 4, 8, 16] {
        let mut cs = ConstraintSystem::new();
        let a = cs.allocate(x as u64);
        let b = cs.allocate(y as u64);
        let c = cs.allocate(z as u64);
        let m = lookup3(&mut cs, TableKind::Majority, a, b, c, width);
        assert_eq!(cs.get(m), ((x & y) ^ (x & z) ^ (y & z)) as u64);
        let k = lookup3(&mut cs, TableKind::Choice, a, b, c, width);
        assert_eq!(cs.get(k), ((x & y) ^ (!x & z)) as u64);
        let da = decompose(&mut cs, a, width);
        let db = decompose(&mut cs, b, width);
        let dc = decompose(&mut cs, c, width);
        let v = bitwise3(&mut cs, TableKind::Xor3, &da, &db, &dc);
        assert_eq!(cs.get(v.word), (x ^ y ^ z) as u64);
        assert!(cs.is_satisfied());
    }
}

#[test]
fn majority_strategies_agree() {
    let (x, y, z): (u32, u32, u32) = (0xCAFEBABE, 0x0F0F0F0F, 0x13579BDF);
    let expected = ((x & y) ^ (x & z) ^ (y & z)) as u64;
    let mut cs = ConstraintSystem::new();
    let a = cs.allocate(x as u64);
    let b = cs.allocate(y as u64);
    let c = cs.allocate(z as u64);
    let naive = Sha256GadgetParams::new(
        GlobalStrategy::Use_8_1_2_SplitTable,
        Strategy::NaiveApproach,
        None,
        None,
        None,
    )
    .unwrap();
    let sparse = Sha256GadgetParams::new(
        GlobalStrategy::Use_8_1_2_SplitTable,
        Strategy::SparseTable,
        None,
        None,
        None,
    )
    .unwrap();
    let m1 = majority(&mut cs, &naive, a, b, c);
    let m2 = majority(&mut cs, &sparse, a, b, c);
    let m3 = majority_sparse(&mut cs, a, b, c, 16);
    let da = decompose(&mut cs, a, 1);
    let db = decompose(&mut cs, b, 1);
    let dc = decompose(&mut cs, c, 1);
    let m4 = majority_by_spread(&mut cs, &da, &db, &dc);
    let m5 = majority_sparse(&mut cs, a, b, c, 4);
    assert_eq!(cs.get(m5), expected);
    assert_eq!(cs.get(m1), expected);
    assert_eq!(cs.get(m2), expected);
    assert_eq!(cs.get(m3), expected);
    assert_eq!(cs.get(m4.word), expected);
    assert!(cs.is_satisfied());
}

#[test]
fn sigma_values() {
    let x: u32 = 0x510e527f;
    let mut cs = ConstraintSystem::new();
    let v = cs.allocate(x as u64);
    let big = sigma(&mut cs, v, 6, 11, 25, false, 8);
    assert_eq!(cs.get(big), (x.rotate_right(6) ^ x.rotate_right(11) ^ x.rotate_right(25)) as u64);
    let small = sigma(&mut cs, v, 7, 18, 3, true, 1);
    assert_eq!(cs.get(small), (x.rotate_right(7) ^ x.rotate_right(18) ^ (x >> 3)) as u64);
    assert!(cs.is_satisfied());
}

#[test]
fn one_round_on_the_initial_state() {
    let mut cs = ConstraintSystem::new();
    let state: Vec<Num> = (0..8).map(|i| Num::Constant(initial_word_value(i))).collect();
    let w = cs.allocate(0x61626380);
    let params = Sha256GadgetParams::new(
        GlobalStrategy::Use_8_1_2_SplitTable,
        Strategy::NaiveApproach,
        None,
        None,
        None,
    )
    .unwrap();
    let next = round(&mut cs, &params, &state, round_constant_value(0), w);
    let values: Vec<u64> = next.iter().map(|v| cs.get(*v)).collect();
    assert_eq!(
        values,
        vec![
            0x5d6aebcd, 0x6a09e667, 0xbb67ae85, 0x3c6ef372, 0xfa2a4622, 0x510e527f, 0x9b05688c,
            0x1f83d9ab
        ]
    );
    assert!(cs.is_satisfied());
}

#[test]
fn tampering_with_a_lookup_output_is_caught() {
    let mut cs = ConstraintSystem::new();
    let a = cs.allocate(5);
    let b = cs.allocate(6);
    let c = cs.allocate(3);
    let m = lookup3(&mut cs, TableKind::Majority, a, b, c, 4);
    assert_eq!(cs.get(m), 7);
    assert!(cs.is_satisfied());
    match m {
        Num::Allocated(i) => cs.set_witness(i, 6),
        Num::Constant(_) => unreachable!(),
    }
    assert!(!cs.is_satisfied());
}

#[test]
fn tables_are_registered_once() {
    let mut cs = ConstraintSystem::new();
    assert_eq!(cs.n_tables(), 0);
    cs.register_table(TableKind::Xor3, 8);
    cs.register_table(TableKind::Xor3, 8);
    assert_eq!(cs.n_tables(), 1);
    cs.register_table(TableKind::Xor3, 4);
    cs.register_table(TableKind::Choice, 8);
    cs.register_table(TableKind::Xor3, 8);
    assert_eq!(cs.n_tables(), 3);
    let a = cs.allocate(5);
    let b = cs.allocate(6);
    let c = cs.allocate(3);
    let _ = lookup3(&mut cs, TableKind::Choice, a, b, c, 8);
    assert_eq!(cs.n_tables(), 3);
    let _ = majority_sparse(&mut cs, a, b, c, 4);
    let _ = majority_sparse(&mut cs, a, b, c, 4);
    // the spread table and the decoding table, each once
    assert_eq!(cs.n_tables(), 5);
    // two tables of 2^24 rows, one of 2^12, one of 2^4 and one of 2^8
    assert_eq!(cs.total_length_of_all_tables(), 2 * (1u128 << 24) + (1 << 12) + (1 << 4) + (1 << 8));
    assert!(cs.is_satisfied());
}
