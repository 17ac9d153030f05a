//! Extrapolation, expressions and transcripts.
use pr1cs::channel::Channel;
use pr1cs::field::Fr;
use pr1cs::group::G1;
use pr1cs::sumcheck::{
    coin, constant, init_base, minus, plus, times, uni_extrapolate, var, verifier_sumcheck,
};
use pr1cs::util::{batch_inverse, Proof, RandomOracle};

fn num(x: i64) -> Fr {
    Fr::from_i64(x)
}

#[test]
fn three_values_fix_a_parabola() {
    let base = init_base(2);
    let f = |x: i64| num(3 * x * x - 2 * x + 7);
    let v = vec![f(0), f(1), f(2)];
    assert!(uni_extrapolate(&base, &v, num(10)).unwrap() == f(10));
    assert!(uni_extrapolate(&base, &v, num(-4)).unwrap() == f(-4));
}

#[test]
fn nothing_is_extrapolated_at_a_node() {
    let base = init_base(2);
    let v = vec![num(1), num(2), num(3)];
    assert!(uni_extrapolate(&base, &v, num(1)).is_none());
    assert!(uni_extrapolate(&base, &v, num(3)).is_some());
}

#[test]
fn expressions_are_evaluated() {
    let gate = minus(plus(times(var(0), var(1)), coin(0)), constant(5));
    let out = gate.eval(&vec![num(3), num(4)], &vec![num(20)]);
    assert!(out == num(27));
}

#[test]
fn inverses_multiply_to_one() {
    let v: Vec<Fr> = vec![num(2), num(-3), num(1), num(1000003)];
    let mut w = v.clone();
    batch_inverse(&mut w);
    for i in 0..v.len() {
        assert!(v[i] * w[i] == Fr::one());
    }
}

#[test]
fn what_is_written_first_is_read_first() {
    let mut proof = Proof::new();
    proof.push_f(&[num(1), num(2)]);
    proof.push_u(9);
    proof.push_f(&[num(3)]);
    proof.push_g(G1::generator());
    assert_eq!(proof.remaining_f(), 3);
    assert!(proof.next_f() == num(1));
    let rest = proof.next_n_fs(2);
    assert!(rest[0] == num(2) && rest[1] == num(3));
    assert_eq!(proof.next_u(), 9);
    assert_eq!(proof.remaining_g(), 1);
    assert!(proof.try_next_f().is_none());
    assert!(proof.try_next_u().is_none());
    assert!(proof.try_next_g().is_some());
    assert!(proof.try_next_g().is_none());
}

/// The verdict on a round with the given claim, message and challenge, and what it leaves.
fn round(claim: i64, message: &[Fr], x: i64) -> (bool, Fr) {
    let mut proof = Proof::new();
    proof.push_f(message);
    let ro = RandomOracle::new(vec![num(x)], Vec::new());
    let mut chan = Channel { proof, ro, ok: true };
    let (point, last) = verifier_sumcheck(num(claim), 1, 2, &mut chan);
    assert!(point.len() == 1 && point[0] == num(x));
    (chan.ok, last)
}

#[test]
fn a_wrong_sum_passes_only_where_messages_meet() {
    // The products of 1 + x and 3 + x at the nodes; their sum over both ends is eleven.
    let right = [num(3), num(8), num(15)];
    let (ok, last) = round(11, &right, 5);
    assert!(ok && last == num(48));
    assert!(!round(12, &right, 5).0);

    // Another message, for the sum twelve, which meets the right one at one and five.
    let fifth = num(5).inverse().unwrap();
    let wrong = [num(4), num(8), num(15) - num(3) * fifth];
    let (ok, last) = round(12, &wrong, 5);
    assert!(ok && last == num(48));
    let (ok, last) = round(12, &wrong, 6);
    assert!(ok && last != num(63));
}

#[test]
fn words_have_inverses() {
    for k in [1, 2, 3, 983, 405928799, 1 << 32, u64::MAX] {
        let x = Fr::from_u64(k);
        assert!(x * x.inverse().unwrap() == Fr::one());
    }
    assert!(Fr::zero().inverse().is_none());
}

#[test]
fn many_values_fix_a_polynomial_of_high_degree() {
    let base = init_base(20);
    let f = |x: i64| num(x).pow(20) + num(5) * num(x);
    let v: Vec<Fr> = (0..=20).map(f).collect();
    assert!(uni_extrapolate(&base, &v, num(50)).unwrap() == f(50));
    assert!(uni_extrapolate(&base, &v, num(20)).is_none());
}
