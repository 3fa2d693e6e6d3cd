use sha256_circuit::cs::{ConstraintSystem, Num};
use sha256_circuit::sha256::{
    compress_block, expand_schedule, ConstructionError, GlobalStrategy, Sha256GadgetParams, Strategy,
};

const K: [u32; 64] = [
    0x428a2f98, 0x71374491, 0xb5c0fbcf, 0xe9b5dba5, 0x3956c25b, 0x59f111f1, 0x923f82a4, 0xab1c5ed5,
    0xd807aa98, 0x12835b01, 0x243185be, 0x550c7dc3, 0x72be5d74, 0x80deb1fe, 0x9bdc06a7, 0xc19bf174,
    0xe49b69c1, 0xefbe4786, 0x0fc19dc6, 0x240ca1cc, 0x2de92c6f, 0x4a7484aa, 0x5cb0a9dc, 0x76f988da,
    0x983e5152, 0xa831c66d, 0xb00327c8, 0xbf597fc7, 0xc6e00bf3, 0xd5a79147, 0x06ca6351, 0x14292967,
    0x27b70a85, 0x2e1b2138, 0x4d2c6dfc, 0x53380d13, 0x650a7354, 0x766a0abb, 0x81c2c92e, 0x92722c85,
    0xa2bfe8a1, 0xa81a664b, 0xc24b8b70, 0xc76c51a3, 0xd192e819, 0xd6990624, 0xf40e3585, 0x106aa070,
    0x19a4c116, 0x1e376c08, 0x2748774c, 0x34b0bcb5, 0x391c0cb3, 0x4ed8aa4a, 0x5b9cca4f, 0x682e6ff3,
    0x748f82ee, 0x78a5636f, 0x84c87814, 0x8cc70208, 0x90befffa, 0xa4506ceb, 0xbef9a3f7, 0xc67178f2,
];

const IV: [u32; 8] = [
    0x6a09e667, 0xbb67ae85, 0x3c6ef372, 0xa54ff53a, 0x510e527f, 0x9b05688c, 0x1f83d9ab, 0x5be0cd19,
];

/// A plain SHA-256 on padded words, written with the machine's own 32-bit
/// operations, to compare the circuit against.
fn plain_sha256(words: &[u32]) -> [u32; 8] {
    let mut h = IV;
    for block in words.chunks(16) {
        let mut w = [0u32; 64];
        w[..16].copy_from_slice(block);
        for t in 16..64 {
            let s0 = w[t - 15].rotate_right(7) ^ w[t - 15].rotate_right(18) ^ (w[t - 15] >> 3);
            let s1 = w[t - 2].rotate_right(17) ^ w[t - 2].rotate_right(19) ^ (w[t - 2] >> 10);
            w[t] = w[t - 16].wrapping_add(s0).wrapping_add(w[t - 7]).wrapping_add(s1);
        }
        let mut s = h;
        for t in 0..64 {
            let s1 = s[4].rotate_right(6) ^ s[4].rotate_right(11) ^ s[4].rotate_right(25);
            let ch = (s[4] & s[5]) ^ (!s[4] & s[6]);
            let t1 = s[7].wrapping_add(s1).wrapping_add(ch).wrapping_add(K[t]).wrapping_add(w[t]);
            let s0 = s[0].rotate_right(2) ^ s[0].rotate_right(13) ^ s[0].rotate_right(22);
            let mj = (s[0] & s[1]) ^ (s[0] & s[2]) ^ (s[1] & s[2]);
            let t2 = s0.wrapping_add(mj);
            s = [t1.wrapping_add(t2), s[0], s[1], s[2], s[3].wrapping_add(t1), s[4], s[5], s[6]];
        }
        for i in 0..8 {
            h[i] = h[i].wrapping_add(s[i]);
        }
    }
    h
}

/// A small deterministic generator of bytes.
fn next_byte(state: &mut u64) -> u8 {
    *state ^= *state << 13;
    *state ^= *state >> 7;
    *state ^= *state << 17;
    (*state >> 24) as u8
}

/// Pads a message whose length leaves 55 bytes in the last block.
fn padded_message(num_of_blocks: usize, seed: u64) -> Vec<u8> {
    let mut state = seed;
    let mut input = vec![0u8; 64 * num_of_blocks];
    let len = 64 * (num_of_blocks - 1) + 55;
    for i in 0..len {
        input[i] = next_byte(&mut state);
    }
    input[len] = 0b10000000;
    let total_number_of_bits = len * 8;
    input[64 * (num_of_blocks - 1) + 60] = (total_number_of_bits >> 24) as u8;
    input[64 * (num_of_blocks - 1) + 61] = (total_number_of_bits >> 16) as u8;
    input[64 * (num_of_blocks - 1) + 62] = (total_number_of_bits >> 8) as u8;
    input[64 * (num_of_blocks - 1) + 63] = total_number_of_bits as u8;
    input
}

fn slice_to_word(slice: &[u8]) -> u32 {
    assert_eq!(slice.len(), 4);
    slice[3] as u32 + ((slice[2] as u32) << 8) + ((slice[1] as u32) << 16) + ((slice[0] as u32) << 24)
}

fn words_of(bytes: &[u8]) -> Vec<u32> {
    bytes.chunks(4).map(slice_to_word).collect()
}

fn allocate_all(cs: &mut ConstraintSystem, words: &[u32]) -> Vec<Num> {
    words.iter().map(|w| cs.allocate(*w as u64)).collect()
}

fn read_all(cs: &ConstraintSystem, vars: &[Num]) -> Vec<u64> {
    vars.iter().map(|v| cs.get(*v)).collect()
}

/// Builds the circuit and returns the digest words it holds, the number of
/// rows and whether the witness satisfies them.
fn run_gadget(
    words: &[u32],
    global: GlobalStrategy,
    majority: Strategy,
    ch: Option<usize>,
    maj: Option<usize>,
    sched: Option<usize>,
) -> (Vec<u64>, usize, bool) {
    let (digest, rows, _, satisfied) = run_gadget_with_tables(words, global, majority, ch, maj, sched);
    (digest, rows, satisfied)
}

fn run_gadget_with_tables(
    words: &[u32],
    global: GlobalStrategy,
    majority: Strategy,
    ch: Option<usize>,
    maj: Option<usize>,
    sched: Option<usize>,
) -> (Vec<u64>, usize, usize, bool) {
    let mut assembly = ConstraintSystem::new();
    let input_vars = allocate_all(&mut assembly, words);
    let params = Sha256GadgetParams::new(global, majority, ch, maj, sched).expect("must work");
    let output_vars = params.sha256(&mut assembly, &input_vars).expect("must work");
    let digest = read_all(&assembly, &output_vars);
    (digest, assembly.n(), assembly.n_tables(), assembly.is_satisfied())
}

fn as_u64(words: &[u32; 8]) -> Vec<u64> {
    words.iter().map(|w| *w as u64).collect()
}

#[test]
fn plain_sha256_matches_known_digest() {
    // "abc", padded
    let mut words = vec![0u32; 16];
    words[0] = 0x61626380;
    words[15] = 24;
    let expected: [u32; 8] = [
        0xba7816bf, 0x8f01cfea, 0x414140de, 0x5dae2223, 0xb00361a3, 0x96177a9c, 0xb410ff61, 0xf20015ad,
    ];
    assert_eq!(plain_sha256(&words), expected);
}

#[test]
fn sha256_gadget_known_digest() {
    let mut words = vec![0u32; 16];
    words[0] = 0x61626380;
    words[15] = 24;
    let (digest, _, satisfied) = run_gadget(
        &words,
        GlobalStrategy::Use_8_1_2_SplitTable,
        Strategy::NaiveApproach,
        None,
        None,
        None,
    );
    let expected: Vec<u64> = vec![
        0xba7816bf, 0x8f01cfea, 0x414140de, 0x5dae2223, 0xb00361a3, 0x96177a9c, 0xb410ff61, 0xf20015ad,
    ];
    assert_eq!(digest, expected);
    assert!(satisfied);
}

#[test]
fn sha256_gadget_single_block_test() {
    let input = padded_message(1, 0x2545_F491_4F6C_DD1D);
    assert_eq!(input.len(), 64);
    assert_eq!(input[55], 0b10000000);
    assert_eq!(input[62], 01);
    assert_eq!(input[63], 0xb8);
    let words = words_of(&input);
    assert_eq!(words.len(), 16);
    let output = plain_sha256(&words);

    let mut assembly = ConstraintSystem::new();
    let input_vars = allocate_all(&mut assembly, &words);
    let params = Sha256GadgetParams::new(
        GlobalStrategy::Use_8_1_2_SplitTable,
        Strategy::NaiveApproach,
        None,
        None,
        None,
    )
    .expect("must work");
    let supposed_output_vars = params.sha256(&mut assembly, &input_vars).expect("must work");
    assert_eq!(supposed_output_vars.len(), 8);
    for (a, b) in supposed_output_vars.iter().zip(output.iter()) {
        assert!(matches!(a, Num::Allocated(_)));
        assert_eq!(assembly.get(*a), *b as u64);
    }
    println!("Assembly contains {} gates", assembly.n());
    println!("Total length of all tables: {}", assembly.total_length_of_all_tables());
    assert!(assembly.is_satisfied());
}

#[test]
fn sha256_gadget_multiple_blocks_test() {
    const NUM_OF_BLOCKS: usize = 3;
    let input = padded_message(NUM_OF_BLOCKS, 100);
    assert_eq!(input.len(), 64 * NUM_OF_BLOCKS);
    let words = words_of(&input);
    assert_eq!(words.len(), 16 * NUM_OF_BLOCKS);
    let output = plain_sha256(&words);

    let mut assembly = ConstraintSystem::new();
    let input_vars = allocate_all(&mut assembly, &words);
    let params = Sha256GadgetParams::new(
        GlobalStrategy::UseRangeCheckTable(16),
        Strategy::NaiveApproach,
        None,
        None,
        None,
    )
    .expect("must work");
    let supposed_output_vars = params.sha256(&mut assembly, &input_vars).expect("must work");
    for (a, b) in supposed_output_vars.iter().zip(output.iter()) {
        assert_eq!(assembly.get(*a), *b as u64);
    }
    println!("Assembly contains {} gates", assembly.n());
    println!("Total length of all tables: {}", assembly.total_length_of_all_tables());
    assert!(assembly.is_satisfied());
}

#[test]
fn strategies_give_the_same_words() {
    let words = words_of(&padded_message(1, 7));
    let expected = as_u64(&plain_sha256(&words));
    let (naive, naive_rows, ok1) = run_gadget(
        &words,
        GlobalStrategy::Use_8_1_2_SplitTable,
        Strategy::NaiveApproach,
        None,
        None,
        None,
    );
    let (sparse, sparse_rows, ok2) = run_gadget(
        &words,
        GlobalStrategy::Use_8_1_2_SplitTable,
        Strategy::SparseTable,
        None,
        None,
        None,
    );
    let (narrow, narrow_rows, ok3) = run_gadget(
        &words,
        GlobalStrategy::UseRangeCheckTable(4),
        Strategy::NaiveApproach,
        Some(2),
        Some(1),
        Some(16),
    );
    assert_eq!(naive, expected);
    assert_eq!(sparse, expected);
    assert_eq!(narrow, expected);
    assert!(ok1 && ok2 && ok3);
    assert_ne!(naive_rows, sparse_rows);
    assert_ne!(naive_rows, narrow_rows);
}

#[test]
fn two_blocks_thread_the_state() {
    let words = words_of(&padded_message(2, 99));
    let expected = as_u64(&plain_sha256(&words));
    let mut cs = ConstraintSystem::new();
    let vars = allocate_all(&mut cs, &words);
    let params = Sha256GadgetParams::new(
        GlobalStrategy::UseRangeCheckTable(8),
        Strategy::NaiveApproach,
        None,
        None,
        None,
    )
    .unwrap();
    let iv: Vec<Num> = IV.iter().map(|w| Num::Constant(*w as u64)).collect();
    let first = compress_block(&mut cs, &params, &iv, &vars[..16].to_vec());
    assert_eq!(read_all(&cs, &first), as_u64(&plain_sha256(&words[..16])));
    let second = compress_block(&mut cs, &params, &first, &vars[16..].to_vec());
    assert_eq!(read_all(&cs, &second), expected);
    assert!(cs.is_satisfied());
}

#[test]
fn schedule_keeps_the_block_and_expands_it() {
    let words = words_of(&padded_message(1, 5));
    let mut cs = ConstraintSystem::new();
    let vars = allocate_all(&mut cs, &words);
    let params = Sha256GadgetParams::new(
        GlobalStrategy::UseRangeCheckTable(2),
        Strategy::NaiveApproach,
        None,
        None,
        None,
    )
    .unwrap();
    let w = expand_schedule(&mut cs, &params, &vars);
    assert_eq!(w.len(), 64);
    for i in 0..16 {
        assert_eq!(w[i], vars[i]);
    }
    let x15 = words[1];
    let x2 = words[14];
    let s0 = x15.rotate_right(7) ^ x15.rotate_right(18) ^ (x15 >> 3);
    let s1 = x2.rotate_right(17) ^ x2.rotate_right(19) ^ (x2 >> 10);
    let w16 = words[0].wrapping_add(s0).wrapping_add(words[9]).wrapping_add(s1);
    assert_eq!(cs.get(w[16]), w16 as u64);
    assert!(cs.is_satisfied());
}

#[test]
fn empty_input_gives_the_initial_state() {
    let (digest, rows, satisfied) = run_gadget(
        &[],
        GlobalStrategy::Use_8_1_2_SplitTable,
        Strategy::NaiveApproach,
        None,
        None,
        None,
    );
    assert_eq!(digest, as_u64(&IV));
    assert_eq!(rows, 0);
    assert!(satisfied);
}

#[test]
fn input_word_beyond_32_bits_is_unsatisfiable() {
    let words = words_of(&padded_message(1, 11));
    let mut cs = ConstraintSystem::new();
    let mut vars = allocate_all(&mut cs, &words);
    vars[0] = cs.allocate(1u64 << 32);
    let params = Sha256GadgetParams::new(
        GlobalStrategy::Use_8_1_2_SplitTable,
        Strategy::NaiveApproach,
        None,
        None,
        None,
    )
    .unwrap();
    let out = params.sha256(&mut cs, &vars);
    assert!(out.is_ok());
    assert!(!cs.is_satisfied());
}

#[test]
fn partial_block_is_refused_before_any_allocation() {
    let mut cs = ConstraintSystem::new();
    let vars = allocate_all(&mut cs, &[1, 2, 3]);
    let params = Sha256GadgetParams::new(
        GlobalStrategy::Use_8_1_2_SplitTable,
        Strategy::NaiveApproach,
        None,
        None,
        None,
    )
    .unwrap();
    let out = params.sha256(&mut cs, &vars);
    assert_eq!(out.err(), Some(ConstructionError::InputLength));
    assert_eq!(cs.n(), 0);
    assert_eq!(cs.values.len(), 3);
}

#[test]
fn configuration_errors() {
    let width = Sha256GadgetParams::new(
        GlobalStrategy::UseRangeCheckTable(3),
        Strategy::NaiveApproach,
        None,
        None,
        None,
    );
    assert_eq!(width.err(), Some(ConstructionError::UnsupportedWidth));
    let too_wide = Sha256GadgetParams::new(
        GlobalStrategy::UseRangeCheckTable(32),
        Strategy::NaiveApproach,
        None,
        None,
        None,
    );
    assert_eq!(too_wide.err(), Some(ConstructionError::UnsupportedWidth));
    let over = Sha256GadgetParams::new(
        GlobalStrategy::Use_8_1_2_SplitTable,
        Strategy::NaiveApproach,
        Some(0),
        None,
        None,
    );
    assert_eq!(over.err(), Some(ConstructionError::UnsupportedWidth));
    let combination = Sha256GadgetParams::new(
        GlobalStrategy::Use_8_1_2_SplitTable,
        Strategy::SparseTable,
        None,
        Some(16),
        None,
    );
    assert_eq!(combination.err(), Some(ConstructionError::UnsupportedCombination));
    let by_default = Sha256GadgetParams::new(
        GlobalStrategy::UseRangeCheckTable(16),
        Strategy::SparseTable,
        None,
        None,
        None,
    );
    assert_eq!(by_default.err(), Some(ConstructionError::UnsupportedCombination));
    let narrowed = Sha256GadgetParams::new(
        GlobalStrategy::UseRangeCheckTable(16),
        Strategy::SparseTable,
        None,
        Some(4),
        None,
    );
    assert!(narrowed.is_ok());
}

#[test]
fn configuration_resolves_overrides() {
    let p = Sha256GadgetParams::new(
        GlobalStrategy::UseRangeCheckTable(16),
        Strategy::NaiveApproach,
        Some(2),
        None,
        Some(4),
    )
    .unwrap();
    assert_eq!((p.range_width, p.ch_width, p.maj_width, p.sched_width), (16, 2, 16, 4));
    let q = Sha256GadgetParams::new(
        GlobalStrategy::Use_8_1_2_SplitTable,
        Strategy::SparseTable,
        None,
        None,
        None,
    )
    .unwrap();
    assert_eq!((q.range_width, q.ch_width, q.maj_width, q.sched_width), (8, 8, 8, 8));
    assert_eq!(q.majority_strategy, Strategy::SparseTable);
}

#[test]
fn tables_are_shared_by_all_rounds_and_blocks() {
    let words = words_of(&padded_message(2, 3));
    let (_, _, tables, ok) = run_gadget_with_tables(
        &words,
        GlobalStrategy::Use_8_1_2_SplitTable,
        Strategy::NaiveApproach,
        None,
        None,
        None,
    );
    // exclusive or, choice and majority, each on chunks of eight bits
    assert_eq!(tables, 3);
    assert!(ok);
    let (_, _, tables, ok) = run_gadget_with_tables(
        &words,
        GlobalStrategy::UseRangeCheckTable(4),
        Strategy::SparseTable,
        Some(2),
        None,
        Some(16),
    );
    // exclusive or at four and at sixteen bits, choice at two, spread and decoding at four
    assert_eq!(tables, 5);
    assert!(ok);
}
