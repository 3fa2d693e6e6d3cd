//! The field arithmetic of proof aggregation: the values that a batch of
//! proofs opens the commitment to `s(z, Y)` to, and their random combination.

use vstd::prelude::*;
use crate::field::{MODULUS, fadd, fmul, fadd_spec, fmul_spec};
use crate::cs::ConstraintSystem;

verus! {

/// The challenges drawn for one proof of the batch: the point `y`, its
/// inverse, and the weight `r` of the proof in the combined opening.
#[derive(Clone, Copy, Debug)]
pub struct Challenge {
    pub y: u64,
    pub y_inverse: u64,
    pub r: u64,
}

/// The size of a circuit: its number of variables and of constraints.
#[derive(Clone, Copy, Debug)]
pub struct Parameters {
    pub n: usize,
    pub q: usize,
}

/// What aggregation computes in the field.
pub struct SuccinctAggregate {
    /// Number of variables of the circuit.
    pub n: usize,
    /// Number of constraints of the circuit.
    pub q: usize,
    /// The value `s(z, w)` that the commitment is finally opened to.
    pub opening_value: u64,
    /// For each proof, the value `s(z, y)` at its challenge point.
    pub c_values: Vec<u64>,
    /// The combination of those values, each weighted by its proof's `r`.
    pub expected_value: u64,
}

/// `first * base^i`, in the field.
pub open spec fn power_at(first: u64, base: u64, i: nat) -> u64
    decreases i,
{
    if i == 0 {
        first
    } else {
        fmul_spec(power_at(first, base, (i - 1) as nat), base)
    }
}

/// The sum of `coeffs[i] * first * base^i` over the first `k` coefficients.
pub open spec fn power_sum(coeffs: Seq<u64>, first: u64, base: u64, k: nat) -> u64
    decreases k,
{
    if k == 0 {
        0
    } else {
        fadd_spec(
            power_sum(coeffs, first, base, (k - 1) as nat),
            fmul_spec(coeffs[k - 1], power_at(first, base, (k - 1) as nat)),
        )
    }
}

/// The value at `y` of the polynomial with the given coefficients of the
/// positive powers `y, y^2, ..` and of the negative powers `y^-1, y^-2, ..`.
pub open spec fn value_at(y: u64, y_inverse: u64, positive: Seq<u64>, negative: Seq<u64>) -> u64 {
    fadd_spec(
        fadd_spec(0, power_sum(positive, y, y, positive.len())),
        power_sum(negative, y_inverse, y_inverse, negative.len()),
    )
}

/// The sum of `r * s(z, y)` over the first `k` challenges.
pub open spec fn combined_value(challenges: Seq<Challenge>, positive: Seq<u64>, negative: Seq<u64>, k: nat) -> u64
    decreases k,
{
    if k == 0 {
        0
    } else {
        fadd_spec(
            combined_value(challenges, positive, negative, (k - 1) as nat),
            fmul_spec(
                value_at(challenges[k - 1].y, challenges[k - 1].y_inverse, positive, negative),
                challenges[k - 1].r,
            ),
        )
    }
}

/// Every challenge point comes with its inverse.
pub open spec fn inverses_given(challenges: Seq<Challenge>, w: u64, w_inverse: u64) -> bool {
    &&& fmul_spec(w, w_inverse) == 1
    &&& forall|i: int|
        0 <= i < challenges.len() ==> fmul_spec((#[trigger] challenges[i]).y, challenges[i].y_inverse) == 1
}

/// Evaluates a polynomial at consecutive powers: the sum of
/// `coeffs[i] * first * base^i`.
pub fn evaluate_at_consequitive_powers(coeffs: &Vec<u64>, first: u64, base: u64) -> (r: u64)
    ensures
        r == power_sum(coeffs@, first, base, coeffs@.len()),
        r < MODULUS,
{
    let mut acc: u64 = 0;
    let mut power: u64 = first;
    let mut i: usize = 0;
    while i < coeffs.len()
        invariant
            0 <= i <= coeffs@.len(),
            acc == power_sum(coeffs@, first, base, i as nat),
            power == power_at(first, base, i as nat),
            acc < MODULUS,
        decreases coeffs@.len() - i,
    {
        acc = fadd(acc, fmul(coeffs[i], power));
        power = fmul(power, base);
        i = i + 1;
    }
    acc
}

/// The value of `s(z, Y)` at `y`, from its coefficients.
pub fn compute_value(y: u64, y_inverse: u64, positive: &Vec<u64>, negative: &Vec<u64>) -> (r: u64)
    ensures
        r == value_at(y, y_inverse, positive@, negative@),
{
    let positive_contrib: u64 = evaluate_at_consequitive_powers(positive, y, y);
    let negative_contrib: u64 = evaluate_at_consequitive_powers(negative, y_inverse, y_inverse);
    let value: u64 = fadd(0, positive_contrib);
    fadd(value, negative_contrib)
}

/// Adds `r` times the polynomial `src` to `target`, coefficient by
/// coefficient, as far as both reach.
pub fn mul_add_polynomials(target: &mut Vec<u64>, src: &Vec<u64>, r: u64)
    ensures
        final(target)@.len() == old(target)@.len(),
        forall|i: int|
            0 <= i < old(target)@.len() ==> #[trigger] final(target)@[i] == (if i < src@.len() {
                fadd_spec(old(target)@[i], fmul_spec(src@[i], r))
            } else {
                old(target)@[i]
            }),
{
    let mut i: usize = 0;
    while i < target.len() && i < src.len()
        invariant
            target@.len() == old(target)@.len(),
            0 <= i <= target@.len(),
            i <= src@.len(),
            forall|j: int| 0 <= j < i ==> #[trigger] target@[j] == fadd_spec(old(target)@[j], fmul_spec(src@[j], r)),
            forall|j: int| i <= j < target@.len() ==> #[trigger] target@[j] == old(target)@[j],
        decreases target@.len() - i,
    {
        let v: u64 = fadd(target[i], fmul(src[i], r));
        target.set(i, v);
        i = i + 1;
    }
}

/// Aggregates for a circuit of known size. Returns `None` exactly when a
/// challenge point is not given with its inverse.
pub fn create_aggregate_on_srs_using_information(
    positive: &Vec<u64>,
    negative: &Vec<u64>,
    challenges: &Vec<Challenge>,
    w: u64,
    w_inverse: u64,
    n: usize,
    q: usize,
) -> (r: Option<SuccinctAggregate>)
    ensures
        r.is_some() == inverses_given(challenges@, w, w_inverse),
        r.is_some() ==> r.unwrap().n == n && r.unwrap().q == q && r.unwrap().opening_value == value_at(
            w,
            w_inverse,
            positive@,
            negative@,
        ) && r.unwrap().c_values@.len() == challenges@.len() && r.unwrap().expected_value
            == combined_value(challenges@, positive@, negative@, challenges@.len()) && forall|i: int|
            0 <= i < challenges@.len() ==> #[trigger] r.unwrap().c_values@[i] == value_at(
                challenges@[i].y,
                challenges@[i].y_inverse,
                positive@,
                negative@,
            ),
{
    if fmul(w, w_inverse) != 1 {
        return None;
    }
    let opening_value: u64 = compute_value(w, w_inverse, positive, negative);
    let mut c_values: Vec<u64> = Vec::new();
    let mut expected_value: u64 = 0;
    let mut i: usize = 0;
    while i < challenges.len()
        invariant
            0 <= i <= challenges@.len(),
            c_values@.len() == i,
            expected_value == combined_value(challenges@, positive@, negative@, i as nat),
            forall|j: int|
                0 <= j < i ==> fmul_spec((#[trigger] challenges@[j]).y, challenges@[j].y_inverse) == 1,
            forall|j: int|
                0 <= j < i ==> #[trigger] c_values@[j] == value_at(
                    challenges@[j].y,
                    challenges@[j].y_inverse,
                    positive@,
                    negative@,
                ),
        decreases challenges@.len() - i,
    {
        let c: Challenge = challenges[i];
        if fmul(c.y, c.y_inverse) != 1 {
            return None;
        }
        let value: u64 = compute_value(c.y, c.y_inverse, positive, negative);
        expected_value = fadd(expected_value, fmul(value, c.r));
        c_values.push(value);
        i = i + 1;
    }
    Some(SuccinctAggregate { n, q, opening_value, c_values, expected_value })
}

/// Aggregates for the circuit whose size the parameters record.
pub fn create_aggregate(
    positive: &Vec<u64>,
    negative: &Vec<u64>,
    challenges: &Vec<Challenge>,
    w: u64,
    w_inverse: u64,
    params: &Parameters,
) -> (r: Option<SuccinctAggregate>)
    ensures
        r.is_some() == inverses_given(challenges@, w, w_inverse),
        r.is_some() ==> r.unwrap().n == params.n && r.unwrap().q == params.q && r.unwrap().opening_value
            == value_at(w, w_inverse, positive@, negative@) && r.unwrap().c_values@.len()
            == challenges@.len() && r.unwrap().expected_value == combined_value(
            challenges@,
            positive@,
            negative@,
            challenges@.len(),
        ) && forall|i: int|
            0 <= i < challenges@.len() ==> #[trigger] r.unwrap().c_values@[i] == value_at(
                challenges@[i].y,
                challenges@[i].y_inverse,
                positive@,
                negative@,
            ),
{
    let n: usize = params.n;
    let q: usize = params.q;
    create_aggregate_on_srs_using_information(positive, negative, challenges, w, w_inverse, n, q)
}

/// Aggregates for a recorded circuit: its size is counted from the
/// constraint system, variables for `n` and rows for `q`.
pub fn create_aggregate_on_srs(
    circuit: &ConstraintSystem,
    positive: &Vec<u64>,
    negative: &Vec<u64>,
    challenges: &Vec<Challenge>,
    w: u64,
    w_inverse: u64,
) -> (r: Option<SuccinctAggregate>)
    ensures
        r.is_some() == inverses_given(challenges@, w, w_inverse),
        r.is_some() ==> r.unwrap().n == circuit.values@.len() && r.unwrap().q == circuit.rows@.len()
            && r.unwrap().opening_value == value_at(w, w_inverse, positive@, negative@)
            && r.unwrap().c_values@.len() == challenges@.len() && r.unwrap().expected_value
            == combined_value(challenges@, positive@, negative@, challenges@.len()) && forall|i: int|
            0 <= i < challenges@.len() ==> #[trigger] r.unwrap().c_values@[i] == value_at(
                challenges@[i].y,
                challenges@[i].y_inverse,
                positive@,
                negative@,
            ),
{
    let (n, q): (usize, usize) = {
        let n: usize = circuit.values.len();
        let q: usize = circuit.n();
        (n, q)
    };
    create_aggregate_on_srs_using_information(positive, negative, challenges, w, w_inverse, n, q)
}

} // verus!
