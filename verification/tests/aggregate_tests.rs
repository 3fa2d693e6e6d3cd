use sha256_circuit::aggregate::{
    compute_value, create_aggregate, create_aggregate_on_srs, create_aggregate_on_srs_using_information,
    evaluate_at_consequitive_powers, mul_add_polynomials, Challenge, Parameters,
};
use sha256_circuit::cs::ConstraintSystem;
use sha256_circuit::field::MODULUS;

const HALF: u64 = 9223372034707292161; // the inverse of 2

#[test]
fn evaluation_at_consecutive_powers() {
    // 1*3 + 2*3*2 + 3*3*4
    assert_eq!(evaluate_at_consequitive_powers(&vec![1, 2, 3], 3, 2), 51);
    assert_eq!(evaluate_at_consequitive_powers(&vec![], 3, 2), 0);
    assert_eq!(evaluate_at_consequitive_powers(&vec![MODULUS - 1], 1, 5), MODULUS - 1);
}

#[test]
fn value_from_both_halves() {
    // positive: 5*2 + 7*4 = 38; negative: 4*(1/2) + 8*(1/4) = 4
    assert_eq!(compute_value(2, HALF, &vec![5, 7], &vec![4, 8]), 42);
}

#[test]
fn aggregate_values_and_combination() {
    let positive = vec![5, 7];
    let negative = vec![4, 8];
    let challenges = vec![
        Challenge { y: 2, y_inverse: HALF, r: 3 },
        Challenge { y: 1, y_inverse: 1, r: 10 },
    ];
    let agg = create_aggregate_on_srs_using_information(&positive, &negative, &challenges, 1, 1, 6, 9)
        .expect("inverses are given");
    assert_eq!(agg.n, 6);
    assert_eq!(agg.q, 9);
    assert_eq!(agg.opening_value, 24);
    assert_eq!(agg.c_values, vec![42, 24]);
    assert_eq!(agg.expected_value, 42 * 3 + 24 * 10);
}

#[test]
fn aggregate_refuses_a_wrong_inverse() {
    let challenges = vec![Challenge { y: 2, y_inverse: 3, r: 1 }];
    assert!(create_aggregate_on_srs_using_information(&vec![1], &vec![1], &challenges, 1, 1, 1, 1).is_none());
    let fine = vec![Challenge { y: 2, y_inverse: HALF, r: 1 }];
    assert!(create_aggregate_on_srs_using_information(&vec![1], &vec![1], &fine, 0, 0, 1, 1).is_none());
    assert!(create_aggregate_on_srs_using_information(&vec![1], &vec![1], &fine, 2, HALF, 1, 1).is_some());
}

#[test]
fn aggregate_takes_the_size_from_parameters_or_circuit() {
    let challenges = vec![Challenge { y: 2, y_inverse: HALF, r: 3 }];
    let params = Parameters { n: 11, q: 4 };
    let a = create_aggregate(&vec![5, 7], &vec![4, 8], &challenges, 2, HALF, &params).unwrap();
    assert_eq!((a.n, a.q), (11, 4));
    assert_eq!(a.opening_value, 42);
    assert_eq!(a.expected_value, 126);

    let mut cs = ConstraintSystem::new();
    let x = cs.allocate(9);
    let _ = sha256_circuit::gadgets::decompose(&mut cs, x, 16);
    let b = create_aggregate_on_srs(&cs, &vec![5, 7], &vec![4, 8], &challenges, 2, HALF).unwrap();
    assert_eq!((b.n, b.q), (cs.values.len(), cs.n()));
    // the word, its two chunks and one partial sum; one row per chunk
    assert_eq!((b.n, b.q), (4, 2));
    assert_eq!(b.c_values, vec![42]);
}

#[test]
fn polynomials_are_combined_coefficient_by_coefficient() {
    let mut target = vec![1, 2, 3, MODULUS - 1];
    mul_add_polynomials(&mut target, &vec![10, 20], 3);
    assert_eq!(target, vec![31, 62, 3, MODULUS - 1]);
    mul_add_polynomials(&mut target, &vec![0, 0, 0, 1, 9], 2);
    assert_eq!(target, vec![31, 62, 3, 1]);
    let mut empty: Vec<u64> = vec![];
    mul_add_polynomials(&mut empty, &vec![5], 5);
    assert!(empty.is_empty());
}
