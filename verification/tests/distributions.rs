use rvlvr::computed_distributions::ComputedDistributions;
use rvlvr::operator::Operator;
use rvlvr::prob::{PROB_HALF, PROB_ONE};

#[test]
fn it_computes_probabilities() {
    let mut distributions = ComputedDistributions::new(2, 4);
    distributions.store(0, &vec![PROB_HALF, PROB_HALF, 0]);
    distributions.store(1, &vec![PROB_ONE, 0, 0]);
    distributions.store(2, &vec![0, PROB_ONE, 0]);
    distributions.compute_at_3(3, (0, 1, 2), |x, y, z| if x != 0 { y } else { z });
    assert_eq!(distributions.read(3), &[PROB_HALF, PROB_HALF, 0][..]);
}

#[test]
fn it_computes_ite() {
    let mut distributions = ComputedDistributions::new(2, 4);
    distributions.store(0, &vec![PROB_HALF, PROB_HALF, 0]);
    distributions.store(1, &vec![PROB_ONE, 0, 0]);
    distributions.store(2, &vec![0, PROB_ONE, 0]);
    Operator::Ite(0, 1, 2).run(3, &mut distributions);
    assert_eq!(distributions.read(3), &[PROB_HALF, PROB_HALF, 0][..]);
}

#[test]
fn it_computes_not() {
    let mut distributions = ComputedDistributions::new(2, 4);
    distributions.store(0, &vec![PROB_HALF, PROB_HALF, 0]);
    distributions.store(1, &vec![PROB_ONE, 0, 0]);
    distributions.store(2, &vec![0, PROB_ONE, 0]);
    Operator::Not(0).run(3, &mut distributions);
    assert_eq!(distributions.read(3), &[PROB_HALF, PROB_HALF, 0][..]);
    Operator::Not(1).run(3, &mut distributions);
    assert_eq!(distributions.read(3), &[0, PROB_ONE, 0][..]);
    Operator::Not(2).run(3, &mut distributions);
    assert_eq!(distributions.read(3), &[PROB_ONE, 0, 0][..]);
}

#[test]
fn conservation_through_defined_inputs() {
    // A fully defined input: the defined output mass of a unary operator
    // equals the defined input mass exactly.
    let quarter = PROB_ONE / 4;
    let rest = PROB_ONE - quarter;
    let mut d = ComputedDistributions::new(2, 2);
    d.store(0, &vec![quarter, rest, 0]);
    Operator::Not(0).run(1, &mut d);
    assert_eq!(d.read(1), &[rest, quarter, 0][..]);
    assert_eq!(d.read(1)[0] + d.read(1)[1], PROB_ONE);
    assert_eq!(d.read(1)[2], 0);

    // Binary operator on two fully defined inputs: defined output mass is
    // the fixed-point product of the defined input masses (here 1 * 1).
    let mut d2 = ComputedDistributions::new(2, 3);
    d2.store(0, &vec![PROB_HALF, PROB_HALF, 0]);
    d2.store(1, &vec![quarter, rest, 0]);
    Operator::And(0, 1).run(2, &mut d2);
    let out = d2.read(2);
    assert_eq!(out[0] + out[1], PROB_ONE);
    assert_eq!(out[2], 0);
}

#[test]
fn undefined_mass_adds_up_unclamped() {
    // Inputs with undefined masses 0.75 and 0.5: the output's undefined
    // mass is their sum, 1.25, deliberately above one full unit.
    let quarter = PROB_ONE / 4;
    let mut d = ComputedDistributions::new(2, 3);
    d.store(0, &vec![0, PROB_HALF, PROB_HALF + quarter]);
    d.store(1, &vec![0, PROB_HALF, PROB_HALF]);
    Operator::And(0, 1).run(2, &mut d);
    let out = d.read(2);
    assert_eq!(out[2], PROB_HALF + quarter + PROB_HALF);
    assert_eq!(out[1], quarter);
    assert_eq!(out[0], 0);
}

#[test]
fn increment_clamps_to_undefined() {
    // A one-hot distribution at the top domain value: increment folds the
    // whole unit of mass into the undefined bucket.
    let mut d = ComputedDistributions::new(2, 2);
    d.set_values(0, &vec![1]);
    Operator::Increment(0).run(1, &mut d);
    assert_eq!(d.read(1), &[0, 0, PROB_ONE][..]);
}

#[test]
fn read_after_store_roundtrip() {
    let mut d = ComputedDistributions::new(3, 2);
    let dist = vec![1, 2, 3, 4];
    d.store(1, &dist);
    assert_eq!(d.read(1), &dist[..]);
    assert_eq!(d.read(0), &[0, 0, 0, 0][..]);
}

#[test]
fn read_likely_breaks_ties_low() {
    let mut d = ComputedDistributions::new(2, 1);
    d.store(0, &vec![5, 5, 3]);
    assert_eq!(d.read_likely(0), (0, 5));
    d.store(0, &vec![3, 5, 5]);
    assert_eq!(d.read_likely(0), (1, 5));
    d.store(0, &vec![0, 0, 0]);
    assert_eq!(d.read_likely(0), (0, 0));
}

#[test]
fn value_out_of_domain_is_undefined() {
    let mut d = ComputedDistributions::new(2, 1);
    Operator::Value(7).run(0, &mut d);
    assert_eq!(d.read(0), &[0, 0, PROB_ONE][..]);
}

#[test]
fn ambiguity_ignores_inputs() {
    let mut d = ComputedDistributions::new(2, 2);
    d.store(0, &vec![0, 0, PROB_ONE]);
    Operator::Ambiguity(0).run(1, &mut d);
    assert_eq!(d.read(1), &[PROB_HALF, PROB_HALF, 0][..]);
}

#[test]
fn set_values_writes_one_hots() {
    let mut d = ComputedDistributions::new(2, 3);
    d.set_values(0, &vec![2, 0, 1]);
    assert_eq!(d.read(0), &[0, 0, PROB_ONE][..]);
    assert_eq!(d.read(1), &[PROB_ONE, 0, 0][..]);
    assert_eq!(d.read(2), &[0, PROB_ONE, 0][..]);
}

#[test]
fn relocate_copies_distributions_down() {
    let mut d = ComputedDistributions::new(2, 3);
    d.set_values(0, &vec![0, 1, 2]);
    let map = vec![Some(0), None, Some(1)];
    d.relocate(&map);
    assert_eq!(d.read(0), &[PROB_ONE, 0, 0][..]);
    assert_eq!(d.read(1), &[0, 0, PROB_ONE][..]);
}
