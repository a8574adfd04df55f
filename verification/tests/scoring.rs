use rvlvr::computed_distributions::ComputedDistributions;
use rvlvr::operator::Operator;
use rvlvr::prob::{PROB_HALF, PROB_ONE, infinite_to_1};
use rvlvr::score::{compute_score_for_output, portion_correct_score, score_values, combine_scores};

#[test]
fn it_scores_portions_correct() {
    assert_eq!(portion_correct_score(0, 0, &vec![], &vec![]), PROB_ONE);
    let mut dists = ComputedDistributions::new(3, 2);
    dists.set_values(0, &vec![1, 2]);
    let d = vec![dists.clone(), dists.clone()];
    assert_eq!(
        portion_correct_score(0, 0, &vec![dists.clone()], &vec![vec![1]]),
        PROB_ONE
    );
    assert_eq!(
        portion_correct_score(0, 0, &d, &vec![vec![1, 2], vec![1, 2]]),
        PROB_ONE
    );
    assert_eq!(
        portion_correct_score(1, 1, &d, &vec![vec![1, 2], vec![1, 2]]),
        PROB_ONE
    );
    assert_eq!(
        portion_correct_score(0, 0, &d, &vec![vec![1, 2], vec![0, 2]]),
        PROB_ONE / 2
    );
}

#[test]
fn bounded_transform_values() {
    assert_eq!(infinite_to_1(0), 0);
    assert_eq!(infinite_to_1(PROB_ONE), PROB_ONE / 2);
    assert_eq!(infinite_to_1(3 * PROB_ONE), 3 * PROB_ONE / 4);
    assert!(infinite_to_1(u64::MAX) < PROB_ONE);
}

#[test]
fn combine_scores_takes_max() {
    assert_eq!(combine_scores(3, 7), 7);
    assert_eq!(combine_scores(7, 3), 7);
    assert_eq!(combine_scores(5, 5), 5);
}

#[test]
fn perfect_one_node_slot_score() {
    // A one-hot slot that matches its target exactly: full correctness,
    // zero weighted error, and a single-node subtree whose complexity
    // term is one minus one half, so the combined score is exactly
    // fifteen and a half units.
    let mut d = ComputedDistributions::new(2, 1);
    d.set_values(0, &vec![1]);
    let dists = vec![d];
    let targets = vec![vec![1]];
    let ops = vec![Operator::Initial];
    assert_eq!(
        compute_score_for_output(&dists, 0, 0, &targets, &ops),
        15 * PROB_ONE + PROB_HALF
    );
}

#[test]
fn score_propagates_to_dependencies() {
    // Score a two-deep expression; every dependency must end up scoring at
    // least as high as the slot that used it.
    let mut d = ComputedDistributions::new(2, 3);
    d.set_values(0, &vec![1]);
    Operator::Not(0).run(1, &mut d);
    Operator::Increment(1).run(2, &mut d);
    let dists = vec![d];
    let targets = vec![vec![0]];
    let ops = vec![Operator::Initial, Operator::Not(0), Operator::Increment(1)];
    let mut scores = vec![0u64, 0, 0];
    let (best, output) = score_values(&dists, 2, &ops, &mut scores, &targets);
    assert_eq!(output, 0);
    assert_eq!(scores[2], best);
    assert!(scores[1] >= scores[2]);
    assert!(scores[0] >= scores[2]);
}
