//! A genetic-programming engine for DAG-shaped symbolic programs.
//!
//! Programs are flat arrays of operators; the operator in slot `i` may only
//! read slots below `i`, which keeps the graph acyclic by construction.
//! Each slot is evaluated probabilistically: a full discrete distribution
//! over a finite value domain (plus one "undefined" bucket) is propagated
//! through every operator, once per training example.  A population of such
//! slots is evolved by repeatedly filling the free slots with random
//! operators, evaluating them, scoring them against the training targets,
//! and compacting the survivors.

pub mod prob;
pub mod computed_distributions;
pub mod operator;
pub mod rng;
pub mod score;
pub mod evolver;
pub mod laws;

use vstd::prelude::*;
use crate::evolver::{Evolver, OutputReport, samples_wf, num_examples, flat_examples};

verus! {

/// Finds transition functions for all variables.
///
/// The evolve algorithm works like this:
///
/// * Allocate the distribution stores, operator and relocation arrays.
/// * Seed the input slots of every example's store with one-hot
///   distributions of the observed input values, and mark those slots with
///   the `Initial` operator.
/// * Repeatedly: fill all free operator slots with random operators whose
///   inputs are drawn from earlier slots, evaluate and score them, then
///   prune: every operator that passes the mean-score bar is assigned a new
///   compact index through the relocation map, and operators and
///   distributions move accordingly.
///
/// Returns, for each output variable, the best-scoring slot with its score
/// and its per-example predictions.
pub fn evolve(
    samples: &Vec<Vec<Vec<usize>>>,
    max_value: usize,
    size: usize,
    max_generations: usize,
) -> (r: Vec<OutputReport>)
    requires
        samples_wf(samples@, samples@[0]@[0]@.len() as int),
        1 <= samples@[0]@[0]@.len(),
        samples@[0]@[0]@.len() <= size,
        max_value + 1 < usize::MAX,
        (max_value + 2) * size <= usize::MAX,
        num_examples(samples@, samples@.len() as int) >= 1,
    ensures
        r@.len() == samples@[0]@[0]@.len(),
        forall|o: int| 0 <= o < r@.len() ==> (#[trigger] r@[o]).output == o,
        forall|o: int|
            0 <= o < r@.len() ==> (#[trigger] r@[o]).predictions@.len() == num_examples(
                samples@,
                samples@.len() as int,
            ),
        forall|o: int| 0 <= o < r@.len() ==> (#[trigger] r@[o]).best_computed < size,
        forall|o: int, e: int|
            #![trigger r@[o].predictions@[e]]
            0 <= o < r@.len() && 0 <= e < num_examples(samples@, samples@.len() as int)
                ==> r@[o].predictions@[e].target == flat_examples(
                samples@,
                samples@.len() as int,
            )[e].1@[o] && r@[o].predictions@[e].predicted <= max_value + 1,
{
    let mut evolver = Evolver::new(samples, max_value, size);
    evolver.run_generations(max_generations);
    evolver.best_report()
}

} // verus!
