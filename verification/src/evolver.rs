//! The evolutionary loop: owns the population of operators, the per-slot
//! scores, the relocation map, and one distribution store per training
//! example, and drives the populate / evaluate / score / prune cycle.

use vstd::prelude::*;
use vstd::pervasive::VecAdditionalExecFns;
use vstd::slice::slice_to_vec;
use crate::computed_distributions::{ComputedDistributions, one_hot, argmax_first};
use crate::operator::{
    Operator, op_output, relocate_spec, is_dep, deps_below, lemma_op_output_frame,
    lemma_op_output_relocate, lemma_relocate_spec_frame, lemma_relocate_deps,
};
use crate::score::{
    ops_wf, score_for_output_spec, best_of, propagated, in_subtree, combine_spec, score_values,
    compute_score_for_output, lemma_subtree_step, lemma_dep_below,
};
use crate::prob::PROB_ONE;
use crate::rng::rng_from_seed;

verus! {

/// The prediction a slot makes for one training example: the most likely
/// value, its mass, and the expected value.
pub struct Prediction {
    pub predicted: usize,
    pub prob: u64,
    pub target: usize,
}

/// For one output variable: the best-scoring surviving slot, its score,
/// and its per-example predictions.
pub struct OutputReport {
    pub output: usize,
    pub best_computed: usize,
    pub best_score: u64,
    pub predictions: Vec<Prediction>,
}

/// How many start-to-end transition examples the first `n` samples hold:
/// each sample of `k` states contributes `k - 1` consecutive pairs.
pub open spec fn num_examples(samples: Seq<Vec<Vec<usize>>>, n: int) -> int
    decreases n,
{
    if n <= 0 {
        0
    } else {
        num_examples(samples, n - 1) + (if samples[n - 1]@.len() >= 1 {
            samples[n - 1]@.len() - 1
        } else {
            0int
        })
    }
}

/// The start-to-end transition pairs of one sample, in order.
pub open spec fn sample_examples(sample: Seq<Vec<usize>>) -> Seq<(Vec<usize>, Vec<usize>)> {
    Seq::new(
        (if sample.len() >= 1 { sample.len() - 1 } else { 0int }) as nat,
        |t: int| (sample[t], sample[t + 1]),
    )
}

/// All transition pairs of the first `n` samples, flattened in order.
pub open spec fn flat_examples(samples: Seq<Vec<Vec<usize>>>, n: int) -> Seq<
    (Vec<usize>, Vec<usize>),
>
    decreases n,
{
    if n <= 0 {
        Seq::empty()
    } else {
        flat_examples(samples, n - 1) + sample_examples(samples[n - 1]@)
    }
}

/// The flattened example list has exactly the counted length.
pub proof fn lemma_flat_examples_len(samples: Seq<Vec<Vec<usize>>>, n: int)
    ensures
        flat_examples(samples, n).len() == num_examples(samples, n),
    decreases n,
{
    if n > 0 {
        lemma_flat_examples_len(samples, n - 1);
    }
}

/// Well-formed training input: at least one sample, and every state in
/// every sample is a vector of the one fixed input length.
pub open spec fn samples_wf(samples: Seq<Vec<Vec<usize>>>, input_size: int) -> bool {
    &&& samples.len() >= 1
    &&& samples[0]@.len() >= 1
    &&& input_size == samples[0]@[0]@.len()
    &&& forall|s: int, t: int|
        0 <= s < samples.len() && 0 <= t < samples[s]@.len()
            ==> (#[trigger] samples[s]@[t])@.len() == input_size
}

/// The sum of the first `n` scores.
pub open spec fn sum_scores(scores: Seq<u64>, n: int) -> int
    decreases n,
{
    if n <= 0 {
        0
    } else {
        sum_scores(scores, n - 1) + scores[n - 1]
    }
}

/// The population-mean score (rounded down), over all slots.
pub open spec fn avg_spec(scores: Seq<u64>) -> int {
    sum_scores(scores, scores.len() as int) / (scores.len() as int)
}

/// How many of the slots `[lo, j)` hold a score at or above the mean:
/// the number of survivors a compaction pass has assigned before slot `j`.
pub open spec fn survivors_below(scores: Seq<u64>, avg: int, lo: int, j: int) -> int
    decreases j - lo,
{
    if j <= lo {
        0
    } else {
        survivors_below(scores, avg, lo, j - 1) + (if scores[j - 1] >= avg {
            1int
        } else {
            0int
        })
    }
}

/// The best (score, slot) pair among slots `[lo, i)` for one output
/// variable, scanning upward from a sentinel of (0, slot 0): a slot wins
/// only by scoring strictly higher than everything before it.
pub open spec fn best_slot_for(
    dists: Seq<ComputedDistributions>,
    targets: Seq<Vec<usize>>,
    ops: Seq<Operator>,
    output: int,
    lo: int,
    i: int,
) -> (int, int)
    decreases i - lo,
{
    if i <= lo {
        (0int, 0int)
    } else {
        let prev = best_slot_for(dists, targets, ops, output, lo, i - 1);
        let s = score_for_output_spec(dists, i - 1, output, targets, ops);
        if s > prev.0 {
            (s, i - 1)
        } else {
            prev
        }
    }
}

/// Every kept slot's distribution is its operator's output over the
/// store's own distributions: the state Evaluate establishes for the free
/// slots, and Prune carries over to the compacted survivors.
pub open spec fn kept_slots_evaluated(ev: Evolver) -> bool {
    forall|e: int, j: int|
        #![trigger ev.stores()[e].dist(j)]
        0 <= e < ev.stores().len() && ev.input_size_spec() <= j < ev.done_spec()
            ==> ev.stores()[e].dist(j) == op_output(ev.stores()[e], ev.ops()[j])
}

/// A relocation map with an identity input prefix and ordered, downward
/// survivor entries moves every slot down or in place, and no two slots
/// to the same place.
proof fn lemma_relocation_map_ok(map: Seq<Option<usize>>, input: int)
    requires
        0 <= input <= map.len(),
        forall|p: int| 0 <= p < input ==> (#[trigger] map[p]) is Some && map[p]->0 == p,
        forall|j: int|
            input <= j < map.len() && (#[trigger] map[j]) is Some ==> input <= map[j]->0
                && map[j]->0 <= j,
        forall|j1: int, j2: int|
            input <= j1 < j2 < map.len() && (#[trigger] map[j1]) is Some && (#[trigger] map[j2])
                is Some ==> map[j1]->0 < map[j2]->0,
    ensures
        forall|j: int| 0 <= j < map.len() && (#[trigger] map[j]) is Some ==> map[j]->0 <= j,
        forall|j1: int, j2: int|
            0 <= j1 < j2 < map.len() && (#[trigger] map[j1]) is Some && (#[trigger] map[j2])
                is Some ==> map[j1]->0 != map[j2]->0,
{
    assert forall|j: int| 0 <= j < map.len() && (#[trigger] map[j]) is Some
        implies map[j]->0 <= j by {
        if j < input {
            assert(map[j]->0 == j);
        }
    }
    assert forall|j1: int, j2: int|
        0 <= j1 < j2 < map.len() && (#[trigger] map[j1]) is Some && (#[trigger] map[j2]) is Some
            implies map[j1]->0 != map[j2]->0 by {
        if j1 < input && j2 >= input {
            assert(map[j1]->0 == j1);
            assert(input <= map[j2]->0);
        }
    }
}

/// Evolves a population of operator slots against a set of training
/// examples.
pub struct Evolver {
    computed: Vec<ComputedDistributions>,
    operators: Vec<Operator>,
    scores: Vec<u64>,
    relocations: Vec<Option<usize>>,
    targets: Vec<Vec<usize>>,
    max_value: usize,
    population_size: usize,
    generation: usize,
    rand_gen: rand::rngs::SmallRng,
    input_size: usize,
    done_count: usize,
}

impl Evolver {
    pub closed spec fn input_size_spec(&self) -> int {
        self.input_size as int
    }

    pub closed spec fn population_spec(&self) -> int {
        self.population_size as int
    }

    pub closed spec fn done_spec(&self) -> int {
        self.done_count as int
    }

    pub closed spec fn max_value_spec(&self) -> int {
        self.max_value as int
    }

    pub closed spec fn generation_spec(&self) -> int {
        self.generation as int
    }

    pub closed spec fn ops(&self) -> Seq<Operator> {
        self.operators@
    }

    pub closed spec fn scores_view(&self) -> Seq<u64> {
        self.scores@
    }

    pub closed spec fn relocations_view(&self) -> Seq<Option<usize>> {
        self.relocations@
    }

    pub closed spec fn stores(&self) -> Seq<ComputedDistributions> {
        self.computed@
    }

    pub closed spec fn targets_view(&self) -> Seq<Vec<usize>> {
        self.targets@
    }

    /// The state invariant: array lengths agree with the population size,
    /// input slots are `Initial` with identity relocations, operators only
    /// reference lower slots, scores respect the fitness ceiling, and each
    /// example's store is a well-formed store of the right shape.
    pub closed spec fn wf(&self) -> bool {
        &&& 1 <= self.input_size as int
        &&& self.input_size <= self.done_count
        &&& self.done_count <= self.population_size
        &&& self.operators@.len() == self.population_size
        &&& self.scores@.len() == self.population_size
        &&& self.relocations@.len() == self.population_size
        &&& ops_wf(self.operators@)
        &&& forall|i: int|
            0 <= i < self.input_size ==> self.operators@[i] == Operator::Initial
        &&& forall|i: int|
            self.input_size <= i < self.done_count ==> !((#[trigger] self.operators@[i]) is Initial)
        &&& forall|i: int|
            0 <= i < self.input_size
                ==> (#[trigger] self.relocations@[i]) is Some && self.relocations@[i]->0 == i
        &&& forall|i: int| 0 <= i < self.scores@.len() ==> (#[trigger] self.scores@[i]) <= 16 * PROB_ONE
        &&& self.max_value + 1 < usize::MAX
        &&& self.computed@.len() == self.targets@.len()
        &&& forall|e: int| 0 <= e < self.computed@.len() ==> (#[trigger] self.computed@[e]).wf()
        &&& forall|e: int|
            0 <= e < self.computed@.len()
                ==> (#[trigger] self.computed@[e]).size_spec() == self.max_value + 1
        &&& forall|e: int|
            0 <= e < self.computed@.len()
                ==> (#[trigger] self.computed@[e]).count_spec() == self.population_size
        &&& forall|e: int|
            0 <= e < self.targets@.len()
                ==> (#[trigger] self.targets@[e])@.len() == self.input_size
    }

    /// Builds the initial population: one store per transition example,
    /// seeded with one-hot distributions of the observed input values; all
    /// operator slots `Initial`; identity relocations for the input slots.
    pub fn new(samples: &Vec<Vec<Vec<usize>>>, max_value: usize, population_size: usize) -> (r:
        Self)
        requires
            samples_wf(samples@, samples@[0]@[0]@.len() as int),
            1 <= samples@[0]@[0]@.len(),
            samples@[0]@[0]@.len() <= population_size,
            max_value + 1 < usize::MAX,
            (max_value + 2) * population_size <= usize::MAX,
        ensures
            r.wf(),
            r.input_size_spec() == samples@[0]@[0]@.len(),
            r.population_spec() == population_size,
            r.max_value_spec() == max_value,
            r.done_spec() == r.input_size_spec(),
            r.generation_spec() == 0,
            r.stores().len() == num_examples(samples@, samples@.len() as int),
            r.targets_view().len() == r.stores().len(),
            forall|e: int|
                0 <= e < r.targets_view().len()
                    ==> (#[trigger] r.targets_view()[e])@ == flat_examples(
                    samples@,
                    samples@.len() as int,
                )[e].1@,
            forall|e: int, k: int|
                0 <= e < r.stores().len() && 0 <= k < r.input_size_spec()
                    ==> (#[trigger] r.stores()[e].dist(k)) == one_hot(
                    (max_value + 1) as int,
                    flat_examples(samples@, samples@.len() as int)[e].0@[k] as int,
                ),
            forall|i: int| 0 <= i < r.scores_view().len() ==> (#[trigger] r.scores_view()[i]) == 0,
            forall|i: int|
                0 <= i < r.population_spec() ==> (#[trigger] r.ops()[i]) == Operator::Initial,
            forall|i: int|
                r.input_size_spec() <= i < r.population_spec()
                    ==> (#[trigger] r.relocations_view()[i]) is None,
            forall|e: int, k: int, b: int|
                #![trigger r.stores()[e].dist(k)[b]]
                0 <= e < r.stores().len() && r.input_size_spec() <= k < r.population_spec() && 0
                    <= b <= max_value + 1 ==> r.stores()[e].dist(k)[b] == 0,
    {
        let input_size = samples[0][0].len();
        let ghost all = flat_examples(samples@, samples@.len() as int);
        proof {
            lemma_flat_examples_len(samples@, samples@.len() as int);
        }
        let mut computed: Vec<ComputedDistributions> = Vec::new();
        let mut targets: Vec<Vec<usize>> = Vec::new();
        let ns = samples.len();
        let mut s: usize = 0;
        while s < ns
            invariant
                s <= ns,
                ns == samples@.len(),
                samples_wf(samples@, input_size as int),
                input_size == samples@[0]@[0]@.len(),
                1 <= input_size <= population_size,
                max_value + 1 < usize::MAX,
                (max_value + 2) * population_size <= usize::MAX,
                computed@.len() == targets@.len(),
                computed@.len() == flat_examples(samples@, s as int).len(),
                all == flat_examples(samples@, samples@.len() as int),
                forall|e: int|
                    0 <= e < targets@.len()
                        ==> (#[trigger] targets@[e])@ == flat_examples(samples@, s as int)[e].1@,
                forall|e: int|
                    0 <= e < computed@.len() ==> (#[trigger] computed@[e]).wf(),
                forall|e: int|
                    0 <= e < computed@.len()
                        ==> (#[trigger] computed@[e]).size_spec() == max_value + 1,
                forall|e: int|
                    0 <= e < computed@.len()
                        ==> (#[trigger] computed@[e]).count_spec() == population_size,
                forall|e: int, k: int|
                    0 <= e < computed@.len() && 0 <= k < input_size
                        ==> (#[trigger] computed@[e].dist(k)) == one_hot(
                        (max_value + 1) as int,
                        flat_examples(samples@, s as int)[e].0@[k] as int,
                    ),
                forall|e: int, k: int, b: int|
                    #![trigger computed@[e].dist(k)[b]]
                    0 <= e < computed@.len() && input_size <= k < population_size && 0 <= b
                        <= max_value + 1 ==> computed@[e].dist(k)[b] == 0,
                forall|e: int|
                    0 <= e < targets@.len()
                        ==> (#[trigger] targets@[e])@.len() == input_size,
            decreases ns - s,
        {
            let sample = &samples[s];
            let ghost flat_before = flat_examples(samples@, s as int);
            let ghost sex = sample_examples(sample@);
            proof {
                assert(flat_examples(samples@, s + 1) == flat_before + sex);
            }
            let sn = sample.len();
            if sn >= 1 {
                let mut t: usize = 0;
                while t + 1 < sn
                    invariant
                        t <= sn - 1 || (sn == 0 && t == 0),
                        sn == sample@.len(),
                        sn >= 1,
                        sample@ == samples@[s as int]@,
                        s < samples@.len(),
                        ns == samples@.len(),
                        samples_wf(samples@, input_size as int),
                        input_size == samples@[0]@[0]@.len(),
                        1 <= input_size <= population_size,
                        max_value + 1 < usize::MAX,
                        (max_value + 2) * population_size <= usize::MAX,
                        sex == sample_examples(sample@),
                        flat_before == flat_examples(samples@, s as int),
                        computed@.len() == targets@.len(),
                        computed@.len() == flat_before.len() + t,
                        t <= sex.len(),
                        forall|e: int|
                            0 <= e < targets@.len()
                                ==> (#[trigger] targets@[e])@ == (flat_before + sex)[e].1@,
                        forall|e: int|
                            0 <= e < computed@.len() ==> (#[trigger] computed@[e]).wf(),
                        forall|e: int|
                            0 <= e < computed@.len()
                                ==> (#[trigger] computed@[e]).size_spec() == max_value + 1,
                        forall|e: int|
                            0 <= e < computed@.len()
                                ==> (#[trigger] computed@[e]).count_spec() == population_size,
                        forall|e: int, k: int|
                            0 <= e < computed@.len() && 0 <= k < input_size
                                ==> (#[trigger] computed@[e].dist(k)) == one_hot(
                                (max_value + 1) as int,
                                (flat_before + sex)[e].0@[k] as int,
                            ),
                        forall|e: int, k: int, b: int|
                            #![trigger computed@[e].dist(k)[b]]
                            0 <= e < computed@.len() && input_size <= k < population_size && 0
                                <= b <= max_value + 1 ==> computed@[e].dist(k)[b] == 0,
                        forall|e: int|
                            0 <= e < targets@.len()
                                ==> (#[trigger] targets@[e])@.len() == input_size,
                    decreases sn - t,
                {
                    let start = &sample[t];
                    let end = &sample[t + 1];
                    let ghost fresh;
                    let mut dists = ComputedDistributions::new(max_value + 1, population_size);
                    proof {
                        fresh = dists;
                    }
                    dists.set_values(0, start);
                    proof {
                        assert((flat_before + sex)[flat_before.len() + t].0 == sample@[t as int]);
                        assert((flat_before + sex)[flat_before.len() + t].1 == sample@[t + 1]);
                        assert forall|k: int| 0 <= k < input_size
                            implies dists.dist(k) == one_hot(
                            (max_value + 1) as int,
                            (flat_before + sex)[computed@.len() as int].0@[k] as int,
                        ) by {}
                        assert forall|k: int, b: int|
                            input_size <= k < population_size && 0 <= b <= max_value + 1
                                implies dists.dist(k)[b] == 0 by {
                            assert(dists.dist(k) == fresh.dist(k));
                            assert(fresh.dist(k)[b] == 0);
                        }
                    }
                    computed.push(dists);
                    targets.push(slice_to_vec(end.as_slice()));
                    t += 1;
                }
                proof {
                    assert(computed@.len() == flat_before.len() + sex.len());
                }
            } else {
                proof {
                    assert(sex.len() == 0);
                    assert(flat_before + sex =~= flat_before);
                }
            }
            proof {
                assert forall|e: int|
                    0 <= e < targets@.len()
                        implies (#[trigger] targets@[e])@ == flat_examples(samples@, s + 1)[e].1@
                    by {
                    assert(flat_examples(samples@, s + 1)[e] == (flat_before + sex)[e]);
                }
                assert forall|e: int, k: int|
                    0 <= e < computed@.len() && 0 <= k < input_size
                        implies (#[trigger] computed@[e].dist(k)) == one_hot(
                        (max_value + 1) as int,
                        flat_examples(samples@, s + 1)[e].0@[k] as int,
                    ) by {
                    assert(flat_examples(samples@, s + 1)[e] == (flat_before + sex)[e]);
                }
            }
            s += 1;
        }
        let mut relocations: Vec<Option<usize>> = Vec::new();
        let mut i: usize = 0;
        while i < population_size
            invariant
                i <= population_size,
                relocations@.len() == i,
                forall|j: int| 0 <= j < i ==> (#[trigger] relocations@[j]) is None,
            decreases population_size - i,
        {
            relocations.push(None);
            i += 1;
        }
        let mut i: usize = 0;
        while i < input_size
            invariant
                i <= input_size,
                input_size <= population_size,
                relocations@.len() == population_size,
                forall|j: int|
                    0 <= j < i
                        ==> (#[trigger] relocations@[j]) is Some && relocations@[j]->0 == j,
                forall|j: int| i <= j < population_size ==> (#[trigger] relocations@[j]) is None,
            decreases input_size - i,
        {
            relocations.set(i, Some(i));
            i += 1;
        }
        let rand_gen = rng_from_seed(0xdeadbeef);
        let mut operators: Vec<Operator> = Vec::new();
        let mut i: usize = 0;
        while i < population_size
            invariant
                i <= population_size,
                operators@.len() == i,
                forall|j: int| 0 <= j < i ==> (#[trigger] operators@[j]) == Operator::Initial,
            decreases population_size - i,
        {
            operators.push(Operator::Initial);
            i += 1;
        }
        let mut scores: Vec<u64> = Vec::new();
        let mut i: usize = 0;
        while i < population_size
            invariant
                i <= population_size,
                scores@.len() == i,
                forall|j: int| 0 <= j < i ==> (#[trigger] scores@[j]) == 0,
            decreases population_size - i,
        {
            scores.push(0);
            i += 1;
        }
        Evolver {
            computed,
            operators,
            scores,
            relocations,
            targets,
            max_value,
            population_size,
            generation: 0,
            rand_gen,
            input_size,
            done_count: input_size,
        }
    }

    /// Fills every free slot with a freshly drawn random operator whose
    /// dependencies lie below its own slot; slots below `done_count`
    /// (fixed inputs and carried-over survivors) are untouched.
    pub fn populate(&mut self)
        requires
            old(self).wf(),
        ensures
            final(self).wf(),
            final(self).input_size_spec() == old(self).input_size_spec(),
            final(self).population_spec() == old(self).population_spec(),
            final(self).max_value_spec() == old(self).max_value_spec(),
            final(self).done_spec() == old(self).done_spec(),
            final(self).generation_spec() == old(self).generation_spec(),
            final(self).stores() == old(self).stores(),
            final(self).targets_view() == old(self).targets_view(),
            final(self).scores_view() == old(self).scores_view(),
            final(self).relocations_view() == old(self).relocations_view(),
            forall|i: int|
                0 <= i < old(self).done_spec() ==> final(self).ops()[i] == old(self).ops()[i],
            forall|i: int|
                old(self).input_size_spec() <= i < old(self).population_spec()
                    ==> !((#[trigger] final(self).ops()[i]) is Initial),
            final(self).ops().len() == old(self).ops().len(),
    {
        let ghost orig = *self;
        let mut i = self.done_count;
        while i < self.population_size
            invariant
                orig.wf(),
                self.done_count <= i <= self.population_size,
                self.computed == orig.computed,
                self.operators@.len() == orig.operators@.len(),
                self.scores == orig.scores,
                self.relocations == orig.relocations,
                self.targets == orig.targets,
                self.max_value == orig.max_value,
                self.population_size == orig.population_size,
                self.generation == orig.generation,
                self.input_size == orig.input_size,
                self.done_count == orig.done_count,
                forall|j: int| 0 <= j < self.done_count ==> self.operators@[j] == orig.operators@[j],
                forall|j: int|
                    self.done_count <= j < i
                        ==> !((#[trigger] self.operators@[j]) is Initial) && deps_below(
                        self.operators@[j],
                        j,
                    ),
                forall|j: int|
                    i <= j < self.population_size ==> self.operators@[j] == orig.operators@[j],
            decreases self.population_size - i,
        {
            let op = Operator::new_rand(&mut self.rand_gen, i);
            self.operators.set(i, op);
            i += 1;
        }
        proof {
            assert forall|j: int| 0 <= j < self.operators@.len()
                implies deps_below(#[trigger] self.operators@[j], j) by {
                if j < self.done_count {
                    assert(self.operators@[j] == orig.operators@[j]);
                    assert(deps_below(orig.operators@[j], j));
                }
            }
            assert forall|j: int| self.input_size <= j < self.population_size
                implies !((#[trigger] self.operators@[j]) is Initial) by {
                if j < self.done_count {
                    assert(self.operators@[j] == orig.operators@[j]);
                }
            }
            assert forall|j: int| 0 <= j < self.input_size
                implies self.operators@[j] == Operator::Initial by {
                assert(self.operators@[j] == orig.operators@[j]);
            }
        }
    }

    /// Evaluates every free slot, in increasing index order, against every
    /// example's store.  Index order matters: it is what guarantees that
    /// dependencies are computed before their dependents, so afterwards
    /// each free slot's distribution is exactly its operator's output over
    /// the final distributions of its (lower) dependency slots.
    pub fn evaluate(&mut self)
        requires
            old(self).wf(),
            forall|i: int|
                old(self).done_spec() <= i < old(self).population_spec()
                    ==> !((#[trigger] old(self).ops()[i]) is Initial),
        ensures
            final(self).wf(),
            final(self).input_size_spec() == old(self).input_size_spec(),
            final(self).population_spec() == old(self).population_spec(),
            final(self).max_value_spec() == old(self).max_value_spec(),
            final(self).done_spec() == old(self).done_spec(),
            final(self).generation_spec() == old(self).generation_spec(),
            final(self).ops() == old(self).ops(),
            final(self).targets_view() == old(self).targets_view(),
            final(self).scores_view() == old(self).scores_view(),
            final(self).relocations_view() == old(self).relocations_view(),
            final(self).stores().len() == old(self).stores().len(),
            forall|e: int, s: int|
                0 <= e < final(self).stores().len() && 0 <= s < old(self).done_spec()
                    ==> (#[trigger] final(self).stores()[e].dist(s)) == old(self).stores()[e].dist(
                    s,
                ),
            forall|e: int, j: int|
                0 <= e < final(self).stores().len() && old(self).done_spec() <= j < old(
                    self,
                ).population_spec()
                    ==> (#[trigger] final(self).stores()[e].dist(j)) == op_output(
                    final(self).stores()[e],
                    old(self).ops()[j],
                ),
    {
        let ghost orig = *self;
        let ghost ops = orig.operators@;
        proof {
            assert forall|ii: int| orig.done_spec() <= ii < orig.population_spec()
                implies !((#[trigger] ops[ii]) is Initial) by {
                assert(!(orig.ops()[ii] is Initial));
            }
        }
        let ne = self.computed.len();
        let mut i = self.done_count;
        while i < self.population_size
            invariant
                orig.wf(),
                self.done_count <= i <= self.population_size,
                self.operators == orig.operators,
                self.scores == orig.scores,
                self.relocations == orig.relocations,
                self.targets == orig.targets,
                self.max_value == orig.max_value,
                self.population_size == orig.population_size,
                self.generation == orig.generation,
                self.input_size == orig.input_size,
                self.done_count == orig.done_count,
                ops == orig.operators@,
                ne == self.computed@.len(),
                self.computed@.len() == orig.computed@.len(),
                forall|ii: int|
                    orig.done_spec() <= ii < orig.population_spec()
                        ==> !((#[trigger] ops[ii]) is Initial),
                forall|e: int| 0 <= e < self.computed@.len() ==> (#[trigger] self.computed@[e]).wf(),
                forall|e: int|
                    0 <= e < self.computed@.len()
                        ==> (#[trigger] self.computed@[e]).size_spec() == self.max_value + 1,
                forall|e: int|
                    0 <= e < self.computed@.len()
                        ==> (#[trigger] self.computed@[e]).count_spec() == self.population_size,
                forall|e: int, s: int|
                    0 <= e < self.computed@.len() && 0 <= s < self.done_count
                        ==> (#[trigger] self.computed@[e].dist(s)) == orig.computed@[e].dist(s),
                forall|e: int, j: int|
                    0 <= e < self.computed@.len() && self.done_count <= j < i
                        ==> (#[trigger] self.computed@[e].dist(j)) == op_output(
                        self.computed@[e],
                        ops[j],
                    ),
            decreases self.population_size - i,
        {
            let op = self.operators[i];
            let mut e: usize = 0;
            while e < ne
                invariant
                    orig.wf(),
                    self.done_count <= i < self.population_size,
                    e <= ne,
                    op == ops[i as int],
                    self.operators == orig.operators,
                    self.scores == orig.scores,
                    self.relocations == orig.relocations,
                    self.targets == orig.targets,
                    self.max_value == orig.max_value,
                    self.population_size == orig.population_size,
                    self.generation == orig.generation,
                    self.input_size == orig.input_size,
                    self.done_count == orig.done_count,
                    ops == orig.operators@,
                    ne == self.computed@.len(),
                    self.computed@.len() == orig.computed@.len(),
                    forall|ii: int|
                        orig.done_spec() <= ii < orig.population_spec()
                            ==> !((#[trigger] ops[ii]) is Initial),
                    forall|ee: int|
                        0 <= ee < self.computed@.len() ==> (#[trigger] self.computed@[ee]).wf(),
                    forall|ee: int|
                        0 <= ee < self.computed@.len()
                            ==> (#[trigger] self.computed@[ee]).size_spec() == self.max_value + 1,
                    forall|ee: int|
                        0 <= ee < self.computed@.len()
                            ==> (#[trigger] self.computed@[ee]).count_spec()
                            == self.population_size,
                    forall|ee: int, s: int|
                        0 <= ee < self.computed@.len() && 0 <= s < self.done_count
                            ==> (#[trigger] self.computed@[ee].dist(s)) == orig.computed@[ee].dist(
                            s,
                        ),
                    forall|ee: int, j: int|
                        0 <= ee < self.computed@.len() && self.done_count <= j < i
                            ==> (#[trigger] self.computed@[ee].dist(j)) == op_output(
                            self.computed@[ee],
                            ops[j],
                        ),
                    forall|ee: int|
                        0 <= ee < e
                            ==> (#[trigger] self.computed@[ee].dist(i as int)) == op_output(
                            self.computed@[ee],
                            ops[i as int],
                        ),
                decreases ne - e,
            {
                let ghost before = self.computed@[e as int];
                let cde = &mut self.computed[e];
                op.run(i, cde);
                proof {
                    let after = self.computed@[e as int];
                    assert forall|d: usize| is_dep(op, d)
                        implies after.dist(d as int) == before.dist(d as int) by {
                        lemma_dep_below(op, d, i as int);
                    }
                    lemma_op_output_frame(before, after, op);
                    assert forall|j: int| self.done_count <= j < i
                        implies op_output(after, ops[j]) == op_output(before, ops[j]) by {
                        assert forall|d: usize| is_dep(ops[j], d)
                            implies after.dist(d as int) == before.dist(d as int) by {
                            lemma_dep_below(ops[j], d, j);
                        }
                        lemma_op_output_frame(before, after, ops[j]);
                    }
                }
                e += 1;
            }
            i += 1;
        }
    }

    /// Resets and recomputes the score of every slot at or beyond the
    /// input boundary, propagating each slot's best score through its
    /// dependency subtree.  Afterwards no slot scores higher than any of
    /// its own dependencies: ancestor protection holds transitively along
    /// every dependency chain.
    pub fn score(&mut self)
        requires
            old(self).wf(),
            old(self).stores().len() >= 1,
        ensures
            final(self).wf(),
            final(self).input_size_spec() == old(self).input_size_spec(),
            final(self).population_spec() == old(self).population_spec(),
            final(self).max_value_spec() == old(self).max_value_spec(),
            final(self).done_spec() == old(self).done_spec(),
            final(self).generation_spec() == old(self).generation_spec(),
            final(self).ops() == old(self).ops(),
            final(self).targets_view() == old(self).targets_view(),
            final(self).relocations_view() == old(self).relocations_view(),
            final(self).stores() == old(self).stores(),
            final(self).scores_view().len() == old(self).scores_view().len(),
            forall|s: int, d: usize|
                old(self).input_size_spec() <= s < old(self).population_spec() && #[trigger]
                is_dep(old(self).ops()[s], d)
                    ==> final(self).scores_view()[d as int] >= final(self).scores_view()[s],
            forall|s: int|
                old(self).input_size_spec() <= s < old(self).population_spec()
                    ==> (#[trigger] final(self).scores_view()[s]) as int >= best_of(
                    old(self).stores(),
                    s,
                    old(self).targets_view(),
                    old(self).ops(),
                    old(self).targets_view()[0]@.len() as int,
                ).0,
    {
        let ghost orig = *self;
        let ghost ops = orig.operators@;
        let mut i = self.input_size;
        while i < self.population_size
            invariant
                orig.wf(),
                self.input_size <= i <= self.population_size,
                self.operators == orig.operators,
                self.computed == orig.computed,
                self.relocations == orig.relocations,
                self.targets == orig.targets,
                self.max_value == orig.max_value,
                self.population_size == orig.population_size,
                self.generation == orig.generation,
                self.input_size == orig.input_size,
                self.done_count == orig.done_count,
                ops == orig.operators@,
                orig.stores().len() >= 1,
                self.scores@.len() == orig.scores@.len(),
                forall|k: int|
                    0 <= k < self.scores@.len() ==> (#[trigger] self.scores@[k]) <= 16 * PROB_ONE,
                forall|s: int, d: usize|
                    self.input_size <= s < i && #[trigger] is_dep(ops[s], d)
                        ==> self.scores@[d as int] >= self.scores@[s],
                forall|s: int|
                    self.input_size <= s < i ==> (#[trigger] self.scores@[s]) as int >= best_of(
                        orig.computed@,
                        s,
                        orig.targets@,
                        orig.operators@,
                        orig.targets@[0]@.len() as int,
                    ).0,
            decreases self.population_size - i,
        {
            self.scores.set(i, 0);
            let ghost sb = self.scores@;
            let r = score_values(
                &self.computed,
                i,
                &self.operators,
                &mut self.scores,
                &self.targets,
            );
            let ghost best = r.0;
            proof {
                assert(self.scores@ == propagated(ops, sb, i as int, best));
                assert(in_subtree(ops, i as int, i as int));
                assert forall|s: int, d: usize|
                    self.input_size <= s < i + 1 && #[trigger] is_dep(ops[s], d)
                        implies self.scores@[d as int] >= self.scores@[s] by {
                    lemma_dep_below(ops[s], d, s);
                    if s == i as int {
                        assert(in_subtree(ops, d as int, d as int));
                        assert(in_subtree(ops, i as int, d as int));
                        assert(self.scores@[s] == combine_spec(sb[s], best));
                        assert(sb[s] == 0);
                        assert(self.scores@[d as int] == combine_spec(sb[d as int], best));
                    } else {
                        assert(sb[d as int] >= sb[s]);
                        if in_subtree(ops, i as int, s) {
                            lemma_subtree_step(ops, i as int, s, d);
                        }
                    }
                }
                assert forall|k: int| 0 <= k < self.scores@.len()
                    implies (#[trigger] self.scores@[k]) <= 16 * PROB_ONE by {
                    assert(sb[k] <= 16 * PROB_ONE);
                }
                assert forall|s: int|
                    self.input_size <= s < i + 1
                        implies (#[trigger] self.scores@[s]) as int >= best_of(
                        orig.computed@,
                        s,
                        orig.targets@,
                        orig.operators@,
                        orig.targets@[0]@.len() as int,
                    ).0 by {
                    assert(self.scores@[s] == propagated(ops, sb, i as int, best)[s]);
                    if s == i as int {
                        assert(self.scores@[s] == combine_spec(sb[s], best));
                    } else {
                        assert(self.scores@[s] >= sb[s]);
                    }
                }
            }
            i += 1;
        }
    }

    /// Prunes the population: computes the mean score over all slots,
    /// keeps every free slot scoring at least the mean, assigns survivors
    /// contiguous new indices, rewrites their operators through the
    /// relocation map built along the way (so every relocated dependency
    /// again lies below its slot), copies their scores forward, compacts
    /// every example's distributions, and advances the generation.
    /// The population-mean score across all slots (rounded down), fixed
    /// input slots included: they contribute whatever score they last held.
    fn mean_score(&self) -> (avg: u64)
        requires
            self.wf(),
        ensures
            avg as int == avg_spec(self.scores_view()),
            avg <= 16 * PROB_ONE,
    {
        let ghost oscores = self.scores@;
        let pop = self.population_size;
        let mut total: u128 = 0;
        let mut i: usize = 0;
        while i < pop
            invariant
                self.wf(),
                pop == self.population_size,
                i <= pop,
                oscores == self.scores@,
                total as int == sum_scores(oscores, i as int),
                total as int <= (i as int) * (16 * PROB_ONE),
            decreases pop - i,
        {
            proof {
                assert(((i + 1) as int) * (16 * PROB_ONE) == (i as int) * (16 * PROB_ONE) + 16
                    * PROB_ONE) by (nonlinear_arith);
                vstd::arithmetic::mul::lemma_mul_inequality(
                    (i + 1) as int,
                    usize::MAX as int,
                    16 * PROB_ONE,
                );
                vstd::arithmetic::mul::lemma_mul_inequality(
                    usize::MAX as int,
                    u64::MAX as int,
                    16 * PROB_ONE,
                );
                assert(oscores[i as int] <= 16 * PROB_ONE);
            }
            total = total + self.scores[i] as u128;
            i += 1;
        }
        let avg128 = total / (pop as u128);
        proof {
            let su = sum_scores(oscores, pop as int);
            vstd::arithmetic::div_mod::lemma_div_pos_is_pos(su, pop as int);
            vstd::arithmetic::mul::lemma_mul_inequality(pop as int, pop as int, 16 * PROB_ONE);
            vstd::arithmetic::div_mod::lemma_div_is_ordered(
                su,
                (pop as int) * (16 * PROB_ONE),
                pop as int,
            );
            vstd::arithmetic::div_mod::lemma_div_by_multiple(16 * PROB_ONE, pop as int);
            vstd::arithmetic::mul::lemma_mul_is_commutative(16 * PROB_ONE, pop as int);
        }
        avg128 as u64
    }

    /// One compaction pass over the free slots: builds the relocation map
    /// (survive if and only if the slot's score reaches the mean), rewrites
    /// each survivor's operator through the map as it stands, and copies
    /// its score forward.  Returns the new free-slot boundary.
    #[verifier::rlimit(100)]
    fn compact_survivors(&mut self, avg: u64) -> (r: (usize, Ghost<Seq<int>>))
        requires
            old(self).wf(),
            avg as int == avg_spec(old(self).scores_view()),
            forall|i: int|
                old(self).input_size_spec() <= i < old(self).population_spec()
                    ==> !((#[trigger] old(self).ops()[i]) is Initial),
            forall|s: int, d: usize|
                old(self).input_size_spec() <= s < old(self).population_spec() && #[trigger]
                is_dep(old(self).ops()[s], d)
                    ==> old(self).scores_view()[d as int] >= old(self).scores_view()[s],
        ensures
            final(self).wf(),
            final(self).stores() == old(self).stores(),
            final(self).targets_view() == old(self).targets_view(),
            final(self).max_value_spec() == old(self).max_value_spec(),
            final(self).population_spec() == old(self).population_spec(),
            final(self).generation_spec() == old(self).generation_spec(),
            final(self).input_size_spec() == old(self).input_size_spec(),
            final(self).done_spec() == old(self).done_spec(),
            final(self).ops().len() == old(self).ops().len(),
            final(self).scores_view().len() == old(self).scores_view().len(),
            final(self).relocations_view().len() == old(self).relocations_view().len(),
            old(self).input_size_spec() <= r.0 as int <= old(self).population_spec(),
            forall|p: int|
                r.0 as int <= p < old(self).population_spec()
                    ==> (#[trigger] final(self).ops()[p]) == old(self).ops()[p],
            forall|p: int|
                old(self).input_size_spec() <= p < r.0 as int
                    ==> !((#[trigger] final(self).ops()[p]) is Initial),
            forall|j: int|
                old(self).input_size_spec() <= j < old(self).population_spec()
                    ==> (((#[trigger] final(self).relocations_view()[j]) is Some) <==> old(
                    self,
                ).scores_view()[j] >= avg_spec(old(self).scores_view())),
            forall|j: int|
                old(self).input_size_spec() <= j < old(self).population_spec()
                    && (#[trigger] final(self).relocations_view()[j]) is Some
                    ==> old(self).input_size_spec() <= final(self).relocations_view()[j]->0
                    && final(self).relocations_view()[j]->0 <= j
                    && (final(self).relocations_view()[j]->0 as int) < r.0 as int,
            forall|j1: int, j2: int|
                old(self).input_size_spec() <= j1 < j2 < old(self).population_spec()
                    && (#[trigger] final(self).relocations_view()[j1]) is Some
                    && (#[trigger] final(self).relocations_view()[j2]) is Some
                    ==> final(self).relocations_view()[j1]->0
                    < final(self).relocations_view()[j2]->0,
            forall|j: int|
                old(self).input_size_spec() <= j < old(self).population_spec()
                    && (#[trigger] final(self).relocations_view()[j]) is Some
                    ==> final(self).ops()[final(self).relocations_view()[j]->0 as int]
                    == relocate_spec(old(self).ops()[j], final(self).relocations_view())
                    && final(self).scores_view()[final(self).relocations_view()[j]->0 as int]
                    == old(self).scores_view()[j],
            r.0 as int == old(self).input_size_spec() + survivors_below(
                old(self).scores_view(),
                avg_spec(old(self).scores_view()),
                old(self).input_size_spec(),
                old(self).population_spec(),
            ),
            forall|j: int|
                old(self).input_size_spec() <= j < old(self).population_spec()
                    && (#[trigger] final(self).relocations_view()[j]) is Some
                    ==> final(self).relocations_view()[j]->0 as int == old(
                    self,
                ).input_size_spec() + survivors_below(
                    old(self).scores_view(),
                    avg_spec(old(self).scores_view()),
                    old(self).input_size_spec(),
                    j,
                ),
            r.1@.len() == r.0 as int - old(self).input_size_spec(),
            forall|k: int|
                0 <= k < r.1@.len()
                    ==> old(self).input_size_spec() <= #[trigger] r.1@[k] < old(
                    self,
                ).population_spec() && final(self).relocations_view()[r.1@[k]] is Some
                    && final(self).relocations_view()[r.1@[k]]->0 as int == old(
                    self,
                ).input_size_spec() + k,
            forall|p: int|
                0 <= p < old(self).input_size_spec()
                    ==> (#[trigger] final(self).relocations_view()[p])
                    == old(self).relocations_view()[p],
            forall|p: int|
                0 <= p < old(self).input_size_spec() ==> (#[trigger] final(self).ops()[p]) == old(
                    self,
                ).ops()[p] && final(self).scores_view()[p] == old(self).scores_view()[p],
    {
        let ghost orig = *self;
        let ghost oscores = orig.scores@;
        let ghost avg_g = avg_spec(oscores);
        let ghost mut origins: Seq<int> = Seq::empty();
        let pop = self.population_size;
        proof {
            assert forall|s: int, d: usize|
                orig.input_size_spec() <= s < orig.population_spec() && #[trigger]
                is_dep(orig.operators@[s], d) implies oscores[d as int] >= oscores[s] by {
                assert(is_dep(orig.ops()[s], d));
            }
            assert forall|i2: int| orig.input_size_spec() <= i2 < orig.population_spec()
                implies !((#[trigger] orig.operators@[i2]) is Initial) by {
                assert(!(orig.ops()[i2] is Initial));
            }
        }
        let mut next_out = self.input_size;
        let mut i = self.input_size;
        while i < pop
            invariant
                orig.wf(),
                pop == self.population_size,
                avg as int == avg_g,
                avg_g == avg_spec(oscores),
                oscores == orig.scores@,
                self.computed == orig.computed,
                self.targets == orig.targets,
                self.max_value == orig.max_value,
                self.population_size == orig.population_size,
                self.generation == orig.generation,
                self.input_size == orig.input_size,
                self.done_count == orig.done_count,
                self.operators@.len() == pop,
                self.scores@.len() == pop,
                self.relocations@.len() == pop,
                self.input_size <= next_out,
                next_out <= i,
                i <= pop,
                forall|i2: int|
                    orig.input_size_spec() <= i2 < orig.population_spec()
                        ==> !((#[trigger] orig.operators@[i2]) is Initial),
                forall|s: int, d: usize|
                    orig.input_size_spec() <= s < orig.population_spec() && #[trigger]
                    is_dep(orig.operators@[s], d) ==> oscores[d as int] >= oscores[s],
                forall|p: int| 0 <= p < self.input_size ==> self.operators@[p]
                    == orig.operators@[p],
                forall|p: int|
                    next_out <= p < pop ==> (#[trigger] self.operators@[p])
                        == orig.operators@[p],
                forall|p: int|
                    next_out <= p < pop ==> (#[trigger] self.scores@[p]) == orig.scores@[p],
                forall|p: int|
                    0 <= p < self.input_size ==> self.relocations@[p] == orig.relocations@[p],
                forall|p: int|
                    0 <= p < self.input_size ==> (#[trigger] self.scores@[p]) == orig.scores@[p],
                next_out as int == self.input_size + survivors_below(
                    oscores,
                    avg_g,
                    self.input_size as int,
                    i as int,
                ),
                forall|j: int|
                    self.input_size <= j < i && (#[trigger] self.relocations@[j]) is Some
                        ==> self.relocations@[j]->0 as int == self.input_size + survivors_below(
                        oscores,
                        avg_g,
                        self.input_size as int,
                        j,
                    ),
                origins.len() == next_out - self.input_size,
                forall|k: int|
                    0 <= k < origins.len()
                        ==> self.input_size <= #[trigger] origins[k] < i
                        && self.relocations@[origins[k]] is Some
                        && self.relocations@[origins[k]]->0 as int == self.input_size + k,
                forall|k: int|
                    0 <= k < pop ==> (#[trigger] self.scores@[k]) <= 16 * PROB_ONE,
                forall|p: int|
                    0 <= p < pop ==> deps_below(#[trigger] self.operators@[p], p),
                forall|p: int|
                    self.input_size <= p < next_out
                        ==> !((#[trigger] self.operators@[p]) is Initial),
                forall|j: int|
                    self.input_size <= j < i
                        ==> (((#[trigger] self.relocations@[j]) is Some) <==> oscores[j] >= avg_g),
                forall|j: int|
                    self.input_size <= j < i && (#[trigger] self.relocations@[j]) is Some
                        ==> self.input_size <= self.relocations@[j]->0
                        && self.relocations@[j]->0 <= j && (self.relocations@[j]->0 as int)
                        < next_out,
                forall|j1: int, j2: int|
                    self.input_size <= j1 < j2 < i && (#[trigger] self.relocations@[j1]) is Some
                        && (#[trigger] self.relocations@[j2]) is Some
                        ==> self.relocations@[j1]->0 < self.relocations@[j2]->0,
                forall|j: int|
                    self.input_size <= j < i && (#[trigger] self.relocations@[j]) is Some
                        ==> self.operators@[self.relocations@[j]->0 as int] == relocate_spec(
                        orig.operators@[j],
                        self.relocations@,
                    ) && self.scores@[self.relocations@[j]->0 as int] == oscores[j],
            decreases pop - i,
        {
            let ghost map0 = self.relocations@;
            let sc = self.scores[i];
            proof {
                assert(self.scores@[i as int] == orig.scores@[i as int]);
                assert(sc == oscores[i as int]);
            }
            if sc >= avg {
                self.relocations.set(i, Some(next_out));
                let op = self.operators[i];
                proof {
                    assert(self.operators@[i as int] == orig.operators@[i as int]);
                    assert(op == orig.operators@[i as int]);
                    assert forall|d: usize| is_dep(op, d)
                        implies (#[trigger] self.relocations@[d as int]) is Some && (
                        self.relocations@[d as int]->0 as int) < next_out as int by {
                        lemma_dep_below(op, d, i as int);
                        assert(self.relocations@[d as int] == map0[d as int]);
                        if self.input_size <= d as int {
                            assert(is_dep(orig.operators@[i as int], d));
                            assert(oscores[d as int] >= oscores[i as int]);
                            assert(oscores[d as int] >= avg_g);
                            assert(map0[d as int] is Some);
                        } else {
                            assert(map0[d as int] == orig.relocations@[d as int]);
                            assert(orig.relocations@[d as int] is Some);
                            assert(orig.relocations@[d as int]->0 == d as int);
                        }
                    }
                }
                let newop = op.relocate(&self.relocations);
                proof {
                    lemma_relocate_deps(op, self.relocations@, next_out as int);
                }
                self.operators.set(next_out, newop);
                let sci = self.scores[i];
                self.scores.set(next_out, sci);
                proof {
                    origins = origins.push(i as int);
                }
                next_out += 1;
            } else {
                self.relocations.set(i, None);
            }
            proof {
                assert(survivors_below(oscores, avg_g, self.input_size as int, i + 1)
                    == survivors_below(oscores, avg_g, self.input_size as int, i as int) + (
                if oscores[i as int] >= avg_g {
                    1int
                } else {
                    0int
                }));
            }
            proof {
                assert forall|j: int|
                    self.input_size <= j < i && (#[trigger] self.relocations@[j]) is Some
                        implies self.operators@[self.relocations@[j]->0 as int] == relocate_spec(
                        orig.operators@[j],
                        self.relocations@,
                    ) && self.scores@[self.relocations@[j]->0 as int] == oscores[j] by {
                    assert(self.relocations@[j] == map0[j]);
                    lemma_relocate_spec_frame(orig.operators@[j], map0, self.relocations@, j);
                }
            }
            i += 1;
        }
        proof {
            assert forall|p: int| 0 <= p < self.input_size
                implies self.operators@[p] == Operator::Initial by {
                assert(self.operators@[p] == orig.operators@[p]);
            }
            assert forall|p: int| 0 <= p < self.input_size
                implies (#[trigger] self.relocations@[p]) is Some && self.relocations@[p]->0
                    == p by {
                assert(self.relocations@[p] == orig.relocations@[p]);
            }
            assert(self.wf());
        }
        (next_out, Ghost(origins))
    }

    /// Compacts every example's distribution store through the relocation
    /// map: each surviving slot's distribution moves to its new index.
    fn relocate_stores(&mut self)
        requires
            old(self).wf(),
            forall|j: int|
                0 <= j < old(self).relocations_view().len()
                    && (#[trigger] old(self).relocations_view()[j]) is Some
                    ==> old(self).relocations_view()[j]->0 <= j,
            forall|j1: int, j2: int|
                0 <= j1 < j2 < old(self).relocations_view().len()
                    && (#[trigger] old(self).relocations_view()[j1]) is Some
                    && (#[trigger] old(self).relocations_view()[j2]) is Some
                    ==> old(self).relocations_view()[j1]->0 != old(self).relocations_view()[j2]->0,
        ensures
            final(self).wf(),
            final(self).ops() == old(self).ops(),
            final(self).scores_view() == old(self).scores_view(),
            final(self).relocations_view() == old(self).relocations_view(),
            final(self).targets_view() == old(self).targets_view(),
            final(self).max_value_spec() == old(self).max_value_spec(),
            final(self).population_spec() == old(self).population_spec(),
            final(self).generation_spec() == old(self).generation_spec(),
            final(self).input_size_spec() == old(self).input_size_spec(),
            final(self).done_spec() == old(self).done_spec(),
            final(self).stores().len() == old(self).stores().len(),
            forall|e: int, j: int|
                #![trigger final(self).stores()[e], final(self).relocations_view()[j]]
                0 <= e < final(self).stores().len() && 0 <= j < old(self).relocations_view().len()
                    && final(self).relocations_view()[j] is Some
                    ==> final(self).stores()[e].dist(final(self).relocations_view()[j]->0 as int)
                    == old(self).stores()[e].dist(j),
    {
        let ghost orig = *self;
        let ghost mapf = orig.relocations@;
        proof {
            assert forall|j: int| 0 <= j < mapf.len() && (#[trigger] mapf[j]) is Some
                implies mapf[j]->0 <= j by {
                assert(mapf[j] == orig.relocations_view()[j]);
                assert(orig.relocations_view()[j] is Some);
            }
            assert forall|j1: int, j2: int|
                0 <= j1 < j2 < mapf.len() && (#[trigger] mapf[j1]) is Some && (#[trigger] mapf[j2])
                    is Some implies mapf[j1]->0 != mapf[j2]->0 by {
                assert(orig.relocations_view()[j1] is Some);
                assert(orig.relocations_view()[j2] is Some);
            }
        }
        let pop = self.population_size;
        let ne = self.computed.len();
        let mut e: usize = 0;
        while e < ne
            invariant
                orig.wf(),
                self.wf(),
                e <= ne,
                ne == self.computed@.len(),
                self.computed@.len() == orig.computed@.len(),
                self.relocations@ == mapf,
                self.operators == orig.operators,
                self.scores == orig.scores,
                self.targets == orig.targets,
                self.max_value == orig.max_value,
                self.population_size == orig.population_size,
                self.generation == orig.generation,
                self.input_size == orig.input_size,
                self.done_count == orig.done_count,
                pop == self.population_size,
                mapf.len() == pop,
                forall|j: int|
                    0 <= j < mapf.len() && (#[trigger] mapf[j]) is Some ==> mapf[j]->0 <= j,
                forall|j1: int, j2: int|
                    0 <= j1 < j2 < mapf.len() && (#[trigger] mapf[j1]) is Some && (
                    #[trigger] mapf[j2]) is Some ==> mapf[j1]->0 != mapf[j2]->0,
                forall|ee: int| e <= ee < self.computed@.len()
                    ==> (#[trigger] self.computed@[ee]) == orig.computed@[ee],
                forall|ee: int, j: int|
                    #![trigger self.computed@[ee], mapf[j]]
                    0 <= ee < e && 0 <= j < mapf.len() && mapf[j] is Some
                        ==> self.computed@[ee].dist(mapf[j]->0 as int) == orig.computed@[ee].dist(
                        j,
                    ),
            decreases ne - e,
        {
            proof {
                assert(self.computed@[e as int] == orig.computed@[e as int]);
                assert(orig.computed@[e as int].wf());
                assert(orig.computed@[e as int].count_spec() == orig.population_size);
            }
            let cde = &mut self.computed[e];
            cde.relocate(&self.relocations);
            e += 1;
        }
    }

    /// Advances the generation: records the new free-slot boundary and
    /// the generation count.
    fn advance_generation(&mut self, next_out: usize)
        requires
            old(self).wf(),
            old(self).generation_spec() < usize::MAX,
            old(self).input_size_spec() <= next_out as int <= old(self).population_spec(),
            forall|p: int|
                old(self).input_size_spec() <= p < next_out as int
                    ==> !((#[trigger] old(self).ops()[p]) is Initial),
        ensures
            final(self).wf(),
            final(self).stores() == old(self).stores(),
            final(self).ops() == old(self).ops(),
            final(self).scores_view() == old(self).scores_view(),
            final(self).relocations_view() == old(self).relocations_view(),
            final(self).targets_view() == old(self).targets_view(),
            final(self).input_size_spec() == old(self).input_size_spec(),
            final(self).population_spec() == old(self).population_spec(),
            final(self).max_value_spec() == old(self).max_value_spec(),
            final(self).done_spec() == next_out as int,
            final(self).generation_spec() == old(self).generation_spec() + 1,
    {
        self.done_count = next_out;
        self.generation = self.generation + 1;
        proof {
            assert forall|p: int| self.input_size <= p < self.done_count
                implies !((#[trigger] self.operators@[p]) is Initial) by {
                assert(!(old(self).ops()[p] is Initial));
            }
        }
    }

    #[verifier::rlimit(100)]
    pub fn prune(&mut self) -> (survivor_origins: Ghost<Seq<int>>)
        requires
            old(self).wf(),
            old(self).generation_spec() < usize::MAX,
            forall|i: int|
                old(self).input_size_spec() <= i < old(self).population_spec()
                    ==> !((#[trigger] old(self).ops()[i]) is Initial),
            forall|s: int, d: usize|
                old(self).input_size_spec() <= s < old(self).population_spec() && #[trigger]
                is_dep(old(self).ops()[s], d)
                    ==> old(self).scores_view()[d as int] >= old(self).scores_view()[s],
        ensures
            final(self).wf(),
            final(self).input_size_spec() == old(self).input_size_spec(),
            final(self).population_spec() == old(self).population_spec(),
            final(self).max_value_spec() == old(self).max_value_spec(),
            final(self).targets_view() == old(self).targets_view(),
            final(self).generation_spec() == old(self).generation_spec() + 1,
            final(self).stores().len() == old(self).stores().len(),
            old(self).input_size_spec() <= final(self).done_spec() <= old(
                self,
            ).population_spec(),
            forall|j: int|
                old(self).input_size_spec() <= j < old(self).population_spec()
                    ==> (((#[trigger] final(self).relocations_view()[j]) is Some) <==> old(
                    self,
                ).scores_view()[j] >= avg_spec(old(self).scores_view())),
            forall|j: int|
                old(self).input_size_spec() <= j < old(self).population_spec()
                    && (#[trigger] final(self).relocations_view()[j]) is Some
                    ==> old(self).input_size_spec() <= final(self).relocations_view()[j]->0
                    && final(self).relocations_view()[j]->0 <= j
                    && (final(self).relocations_view()[j]->0 as int) < final(self).done_spec(),
            forall|j: int|
                old(self).input_size_spec() <= j < old(self).population_spec()
                    && (#[trigger] final(self).relocations_view()[j]) is Some
                    ==> final(self).ops()[final(self).relocations_view()[j]->0 as int]
                    == relocate_spec(old(self).ops()[j], final(self).relocations_view())
                    && final(self).scores_view()[final(self).relocations_view()[j]->0 as int]
                    == old(self).scores_view()[j],
            forall|j1: int, j2: int|
                old(self).input_size_spec() <= j1 < j2 < old(self).population_spec()
                    && (#[trigger] final(self).relocations_view()[j1]) is Some
                    && (#[trigger] final(self).relocations_view()[j2]) is Some
                    ==> final(self).relocations_view()[j1]->0
                    < final(self).relocations_view()[j2]->0,
            forall|e: int, j: int|
                #![trigger final(self).stores()[e], final(self).relocations_view()[j]]
                0 <= e < final(self).stores().len() && 0 <= j < old(self).population_spec()
                    && final(self).relocations_view()[j] is Some
                    ==> final(self).stores()[e].dist(final(self).relocations_view()[j]->0 as int)
                    == old(self).stores()[e].dist(j),
            final(self).done_spec() == old(self).input_size_spec() + survivors_below(
                old(self).scores_view(),
                avg_spec(old(self).scores_view()),
                old(self).input_size_spec(),
                old(self).population_spec(),
            ),
            forall|j: int|
                old(self).input_size_spec() <= j < old(self).population_spec()
                    && (#[trigger] final(self).relocations_view()[j]) is Some
                    ==> final(self).relocations_view()[j]->0 as int == old(
                    self,
                ).input_size_spec() + survivors_below(
                    old(self).scores_view(),
                    avg_spec(old(self).scores_view()),
                    old(self).input_size_spec(),
                    j,
                ),
            survivor_origins@.len() == final(self).done_spec() - old(self).input_size_spec(),
            forall|k: int|
                0 <= k < survivor_origins@.len()
                    ==> old(self).input_size_spec() <= #[trigger] survivor_origins@[k] < old(
                    self,
                ).population_spec() && final(self).relocations_view()[survivor_origins@[k]]
                    is Some && final(self).relocations_view()[survivor_origins@[k]]->0 as int
                    == old(self).input_size_spec() + k,
            forall|p: int|
                0 <= p < old(self).input_size_spec()
                    ==> (#[trigger] final(self).relocations_view()[p]) is Some
                    && final(self).relocations_view()[p]->0 == p,
            forall|p: int|
                0 <= p < old(self).input_size_spec() ==> (#[trigger] final(self).ops()[p]) == old(
                    self,
                ).ops()[p] && final(self).scores_view()[p] == old(self).scores_view()[p],
    {
        // The population-mean score across all slots, fixed inputs
        // included.
        let avg = self.mean_score();
        // Walk the free slots in increasing order; survivors get the next
        // contiguous output index.
        let (next_out, survivor_origins) = self.compact_survivors(avg);
        proof {
            lemma_relocation_map_ok(self.relocations@, self.input_size as int);
        }
        // Compact every example's distributions through the finished map.
        self.relocate_stores();
        self.advance_generation(next_out);
        proof {
            assert forall|p: int| 0 <= p < old(self).input_size_spec()
                implies (#[trigger] self.ops()[p]) == old(self).ops()[p] && self.scores_view()[p]
                    == old(self).scores_view()[p] by {}
            assert forall|p: int| 0 <= p < old(self).input_size_spec()
                implies (#[trigger] self.relocations_view()[p]) is Some
                    && self.relocations_view()[p]->0 == p by {
                assert(self.relocations_view()[p] == old(self).relocations_view()[p]);
            }
        }
        survivor_origins
    }

    /// Runs a fixed number of generations, each one populate, evaluate,
    /// score, prune cycle.
    pub fn run_generations(&mut self, generations: usize)
        requires
            old(self).wf(),
            old(self).stores().len() >= 1,
            old(self).generation_spec() + generations <= usize::MAX,
            kept_slots_evaluated(*old(self)),
        ensures
            final(self).wf(),
            final(self).generation_spec() == old(self).generation_spec() + generations,
            final(self).input_size_spec() == old(self).input_size_spec(),
            final(self).population_spec() == old(self).population_spec(),
            final(self).max_value_spec() == old(self).max_value_spec(),
            final(self).targets_view() == old(self).targets_view(),
            final(self).stores().len() == old(self).stores().len(),
            kept_slots_evaluated(*final(self)),
            generations >= 1 ==> forall|j: int|
                final(self).input_size_spec() <= j < final(self).population_spec()
                    && (#[trigger] final(self).relocations_view()[j]) is Some
                    ==> final(self).input_size_spec() <= final(self).relocations_view()[j]->0
                    && final(self).relocations_view()[j]->0 <= j
                    && (final(self).relocations_view()[j]->0 as int) < final(self).done_spec(),
    {
        let mut g: usize = 0;
        while g < generations
            invariant
                self.wf(),
                g <= generations,
                self.stores().len() >= 1,
                self.generation_spec() == old(self).generation_spec() + g,
                self.generation_spec() + (generations - g) <= usize::MAX,
                self.input_size_spec() == old(self).input_size_spec(),
                self.population_spec() == old(self).population_spec(),
                self.max_value_spec() == old(self).max_value_spec(),
                self.targets_view() == old(self).targets_view(),
                self.stores().len() == old(self).stores().len(),
                kept_slots_evaluated(*self),
                g >= 1 ==> forall|j: int|
                    self.input_size_spec() <= j < self.population_spec()
                        && (#[trigger] self.relocations_view()[j]) is Some
                        ==> self.input_size_spec() <= self.relocations_view()[j]->0
                        && self.relocations_view()[j]->0 <= j
                        && (self.relocations_view()[j]->0 as int) < self.done_spec(),
            decreases generations - g,
        {
            let ghost s1 = *self;
            self.populate();
            let ghost s2 = *self;
            proof {
                assert forall|e: int, j: int|
                    #![trigger s2.stores()[e].dist(j)]
                    0 <= e < s2.stores().len() && s2.input_size_spec() <= j < s2.done_spec()
                        implies s2.stores()[e].dist(j) == op_output(
                        s2.stores()[e],
                        s2.ops()[j],
                    ) by {
                    assert(s1.stores()[e].dist(j) == op_output(s1.stores()[e], s1.ops()[j]));
                    assert(s2.stores()[e] == s1.stores()[e]);
                    assert(s2.ops()[j] == s1.ops()[j]);
                }
            }
            self.evaluate();
            let ghost s3 = *self;
            proof {
                // Every slot at or beyond the input boundary now holds its
                // operator's output: the free slots by evaluation, the kept
                // slots because neither they nor their (lower) dependencies
                // were touched.
                assert forall|e: int, j: int|
                    #![trigger s3.stores()[e].dist(j)]
                    0 <= e < s3.stores().len() && s3.input_size_spec() <= j
                        < s3.population_spec() implies s3.stores()[e].dist(j) == op_output(
                        s3.stores()[e],
                        s3.ops()[j],
                    ) by {
                    if j < s2.done_spec() {
                        assert(s2.stores()[e].dist(j) == op_output(s2.stores()[e], s2.ops()[j]));
                        assert(deps_below(s2.operators@[j], j));
                        assert forall|d: usize| is_dep(s2.ops()[j], d)
                            implies s3.stores()[e].dist(d as int) == s2.stores()[e].dist(
                            d as int,
                        ) by {
                            lemma_dep_below(s2.ops()[j], d, j);
                        }
                        lemma_op_output_frame(s2.stores()[e], s3.stores()[e], s2.ops()[j]);
                    }
                }
            }
            self.score();
            let ghost s4 = *self;
            proof {
                assert forall|e: int, j: int|
                    #![trigger s4.stores()[e].dist(j)]
                    0 <= e < s4.stores().len() && s4.input_size_spec() <= j
                        < s4.population_spec() implies s4.stores()[e].dist(j) == op_output(
                        s4.stores()[e],
                        s4.ops()[j],
                    ) by {
                    assert(s3.stores()[e].dist(j) == op_output(s3.stores()[e], s3.ops()[j]));
                    assert(s4.stores()[e] == s3.stores()[e]);
                    assert(s4.ops()[j] == s3.ops()[j]);
                }
            }
            let origins = self.prune();
            proof {
                let ghost mapf = self.relocations_view();
                assert forall|e: int, v: int|
                    #![trigger self.stores()[e].dist(v)]
                    0 <= e < self.stores().len() && self.input_size_spec() <= v
                        < self.done_spec() implies self.stores()[e].dist(v) == op_output(
                        self.stores()[e],
                        self.ops()[v],
                    ) by {
                    let k = v - s4.input_size_spec();
                    let j = origins@[k];
                    assert(s4.input_size_spec() <= j < s4.population_spec());
                    assert(mapf[j] is Some && mapf[j]->0 as int == v);
                    assert(self.ops()[v] == relocate_spec(s4.ops()[j], mapf));
                    assert(self.stores()[e].dist(v) == s4.stores()[e].dist(j));
                    assert(s4.stores()[e].dist(j) == op_output(s4.stores()[e], s4.ops()[j]));
                    assert(deps_below(s4.operators@[j], j));
                    assert(!(s4.ops()[j] is Initial));
                    assert(s4.scores_view()[j] >= avg_spec(s4.scores_view()));
                    assert forall|d: usize| is_dep(s4.ops()[j], d)
                        implies (#[trigger] mapf[d as int]) is Some && self.stores()[e].dist(
                        mapf[d as int]->0 as int,
                    ) == s4.stores()[e].dist(d as int) by {
                        lemma_dep_below(s4.ops()[j], d, j);
                        if s4.input_size_spec() <= d as int {
                            assert(is_dep(s3.ops()[j], d));
                            assert(s4.scores_view()[d as int] >= s4.scores_view()[j]);
                            assert(mapf[d as int] is Some);
                        } else {
                            assert(mapf[d as int] is Some && mapf[d as int]->0 == d);
                        }
                    }
                    assert(self.stores()[e].size_spec() == self.max_value_spec() + 1);
                    assert(s4.stores()[e].size_spec() == s4.max_value_spec() + 1);
                    lemma_op_output_relocate(s4.stores()[e], self.stores()[e], s4.ops()[j], mapf);
                }
            }
            g += 1;
        }
    }

    /// Read access to the operator array, for callers that render the
    /// surviving programs.
    pub fn operators(&self) -> (r: &Vec<Operator>)
        ensures
            r@ == self.ops(),
    {
        &self.operators
    }

    /// For each output variable, the best-scoring slot at or beyond the
    /// input boundary, its score, and its most-likely prediction (with
    /// mass) against the target for every example.
    pub fn best_report(&self) -> (r: Vec<OutputReport>)
        requires
            self.wf(),
            self.targets_view().len() >= 1,
        ensures
            r@.len() == self.input_size_spec(),
            forall|o: int|
                0 <= o < r@.len() ==> (#[trigger] r@[o]).output == o,
            forall|o: int|
                0 <= o < r@.len()
                    ==> ((#[trigger] r@[o]).best_score as int, r@[o].best_computed as int)
                    == best_slot_for(
                    self.stores(),
                    self.targets_view(),
                    self.ops(),
                    o,
                    self.input_size_spec(),
                    self.population_spec(),
                ),
            forall|o: int|
                0 <= o < r@.len() ==> (#[trigger] r@[o]).predictions@.len()
                    == self.stores().len(),
            forall|o: int|
                0 <= o < r@.len() ==> (#[trigger] r@[o]).best_computed < self.population_spec(),
            forall|o: int, e: int|
                #![trigger r@[o].predictions@[e]]
                0 <= o < r@.len() && 0 <= e < self.stores().len()
                    ==> r@[o].predictions@[e].predicted as int == argmax_first(
                    self.stores()[e].dist(r@[o].best_computed as int),
                    self.stores()[e].buckets(),
                ) && r@[o].predictions@[e].prob == self.stores()[e].dist(
                    r@[o].best_computed as int,
                )[r@[o].predictions@[e].predicted as int] && r@[o].predictions@[e].target
                    == self.targets_view()[e]@[o] && r@[o].predictions@[e].predicted as int
                    <= self.max_value_spec() + 1,
    {
        let output_size = self.targets[0].len();
        let mut reports: Vec<OutputReport> = Vec::new();
        let mut output: usize = 0;
        while output < output_size
            invariant
                self.wf(),
                self.targets_view().len() >= 1,
                output <= output_size,
                output_size == self.targets_view()[0]@.len(),
                reports@.len() == output,
                forall|o: int|
                    0 <= o < reports@.len() ==> (#[trigger] reports@[o]).output == o,
                forall|o: int|
                    0 <= o < reports@.len()
                        ==> ((#[trigger] reports@[o]).best_score as int, reports@[o].best_computed
                        as int) == best_slot_for(
                        self.stores(),
                        self.targets_view(),
                        self.ops(),
                        o,
                        self.input_size_spec(),
                        self.population_spec(),
                    ),
                forall|o: int|
                    0 <= o < reports@.len() ==> (#[trigger] reports@[o]).predictions@.len()
                        == self.stores().len(),
                forall|o: int|
                    0 <= o < reports@.len() ==> (#[trigger] reports@[o]).best_computed
                        < self.population_spec(),
                forall|o: int, e: int|
                    #![trigger reports@[o].predictions@[e]]
                    0 <= o < reports@.len() && 0 <= e < self.stores().len()
                        ==> reports@[o].predictions@[e].predicted as int == argmax_first(
                        self.stores()[e].dist(reports@[o].best_computed as int),
                        self.stores()[e].buckets(),
                    ) && reports@[o].predictions@[e].prob == self.stores()[e].dist(
                        reports@[o].best_computed as int,
                    )[reports@[o].predictions@[e].predicted as int]
                        && reports@[o].predictions@[e].target == self.targets_view()[e]@[o]
                        && reports@[o].predictions@[e].predicted as int <= self.max_value_spec()
                        + 1,
            decreases output_size - output,
        {
            let mut best_score: u64 = 0;
            let mut best_computed: usize = 0;
            let mut i = self.input_size;
            while i < self.population_size
                invariant
                    self.wf(),
                    self.targets_view().len() >= 1,
                    output < self.targets_view()[0]@.len(),
                    self.input_size <= i <= self.population_size,
                    best_computed < self.population_size,
                    (best_score as int, best_computed as int) == best_slot_for(
                        self.stores(),
                        self.targets_view(),
                        self.ops(),
                        output as int,
                        self.input_size_spec(),
                        i as int,
                    ),
                decreases self.population_size - i,
            {
                let score = compute_score_for_output(
                    &self.computed,
                    i,
                    output,
                    &self.targets,
                    &self.operators,
                );
                if score > best_score {
                    best_score = score;
                    best_computed = i;
                }
                i += 1;
            }
            let mut predictions: Vec<Prediction> = Vec::new();
            let nd = self.computed.len();
            let mut e: usize = 0;
            while e < nd
                invariant
                    self.wf(),
                    self.targets_view().len() >= 1,
                    output < self.targets_view()[0]@.len(),
                    e <= nd,
                    nd == self.stores().len(),
                    best_computed < self.population_size,
                    predictions@.len() == e,
                    forall|ee: int|
                        0 <= ee < e ==> (#[trigger] predictions@[ee]).predicted as int
                            == argmax_first(
                            self.stores()[ee].dist(best_computed as int),
                            self.stores()[ee].buckets(),
                        ) && predictions@[ee].prob == self.stores()[ee].dist(
                            best_computed as int,
                        )[predictions@[ee].predicted as int] && predictions@[ee].target
                            == self.targets_view()[ee]@[output as int]
                            && predictions@[ee].predicted as int <= self.max_value_spec() + 1,
                decreases nd - e,
            {
                let de = &self.computed[e];
                let (pred, prob) = de.read_likely(best_computed);
                let tgt = self.targets[e][output];
                predictions.push(Prediction { predicted: pred, prob, target: tgt });
                e += 1;
            }
            reports.push(
                OutputReport { output, best_computed, best_score, predictions },
            );
            output += 1;
        }
        reports
    }
}

} // verus!