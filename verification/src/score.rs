//! Per-slot fitness: a weighted sum of correctness, probabilistic error
//! and structural complexity, with propagation of a winning score to all
//! transitive dependencies so that sub-expressions feeding a high-scoring
//! slot are protected.

use vstd::prelude::*;
use crate::computed_distributions::{ComputedDistributions, argmax_first};
use crate::operator::{Operator, spec_deps, is_dep, deps_below};
use crate::prob::{
    PROB_HALF, PROB_ONE, PROB_CAP, i21_spec, sat64, sat_add, sat_mul, infinite_to_1,
};

verus! {

/// Global operator-array shape: every operator's dependencies lie below
/// its own slot, so the graph is acyclic.
pub open spec fn ops_wf(ops: Seq<Operator>) -> bool {
    forall|j: int| 0 <= j < ops.len() ==> deps_below(#[trigger] ops[j], j)
}

/// A dependency of a well-formed operator lies below the operator's slot.
pub proof fn lemma_dep_below(op: Operator, d: usize, bound: int)
    requires
        is_dep(op, d),
        deps_below(op, bound),
    ensures
        (d as int) < bound,
{
}

/// Bundles the preconditions the scoring functions share: one store per
/// example, index-aligned with the target rows, all shaped alike.
pub open spec fn scoring_inputs_wf(
    dists: Seq<ComputedDistributions>,
    targets: Seq<Vec<usize>>,
    computed: int,
    output: int,
) -> bool {
    &&& dists.len() == targets.len()
    &&& forall|e: int| 0 <= e < dists.len() ==> (#[trigger] dists[e]).wf()
    &&& forall|e: int| 0 <= e < dists.len() ==> computed < (#[trigger] dists[e]).count_spec()
    &&& forall|e: int| 0 <= e < targets.len() ==> output < (#[trigger] targets[e])@.len()
}

/// How many examples' most-likely value misses the target, among the
/// first `n` examples.
pub open spec fn wrong_count(
    dists: Seq<ComputedDistributions>,
    targets: Seq<Vec<usize>>,
    computed: int,
    output: int,
    n: int,
) -> int
    decreases n,
{
    if n <= 0 {
        0
    } else {
        wrong_count(dists, targets, computed, output, n - 1) + (
        if targets[n - 1]@[output] as int != argmax_first(
            dists[n - 1].dist(computed),
            dists[n - 1].buckets(),
        ) {
            1int
        } else {
            0int
        })
    }
}

/// The number of wrong examples lies between zero and the example count.
pub proof fn lemma_wrong_count_bounds(
    dists: Seq<ComputedDistributions>,
    targets: Seq<Vec<usize>>,
    computed: int,
    output: int,
    n: int,
)
    ensures
        0 <= wrong_count(dists, targets, computed, output, n) <= (if n <= 0 { 0 } else { n }),
    decreases n,
{
    if n > 0 {
        lemma_wrong_count_bounds(dists, targets, computed, output, n - 1);
    }
}

/// The fraction of examples whose most-likely value equals the target, in
/// fixed point: one minus the wrong fraction (an empty example list counts
/// as fully correct).
pub open spec fn pc_spec(
    dists: Seq<ComputedDistributions>,
    targets: Seq<Vec<usize>>,
    computed: int,
    output: int,
) -> int {
    let n = dists.len() as int;
    let denom = if n == 0 { 1int } else { n };
    PROB_ONE - (PROB_ONE * wrong_count(dists, targets, computed, output, n)) / denom
}

/// The correctness score is a fixed-point fraction.
pub proof fn lemma_pc_bounds(
    dists: Seq<ComputedDistributions>,
    targets: Seq<Vec<usize>>,
    computed: int,
    output: int,
)
    ensures
        0 <= pc_spec(dists, targets, computed, output) <= PROB_ONE,
{
    let n = dists.len() as int;
    let denom = if n == 0 { 1int } else { n };
    let w = wrong_count(dists, targets, computed, output, n);
    lemma_wrong_count_bounds(dists, targets, computed, output, n);
    vstd::arithmetic::mul::lemma_mul_nonnegative(PROB_ONE as int, w);
    vstd::arithmetic::div_mod::lemma_div_pos_is_pos(PROB_ONE * w, denom);
    vstd::arithmetic::mul::lemma_mul_inequality(w, denom, PROB_ONE as int);
    vstd::arithmetic::mul::lemma_mul_is_commutative(w, PROB_ONE as int);
    vstd::arithmetic::mul::lemma_mul_is_commutative(denom, PROB_ONE as int);
    vstd::arithmetic::div_mod::lemma_div_is_ordered(
        PROB_ONE * w,
        PROB_ONE * denom,
        denom,
    );
    vstd::arithmetic::div_mod::lemma_div_by_multiple(PROB_ONE as int, denom);
    vstd::arithmetic::mul::lemma_mul_is_commutative(PROB_ONE as int, denom);
}

/// The recursive node count of the dependency subtree rooted at slot `i`:
/// one for the slot itself plus the count of each dependency's subtree.
pub open spec fn cx_spec(ops: Seq<Operator>, i: int) -> int
    decreases i,
{
    if i < 0 {
        1
    } else {
        let ds = spec_deps(ops[i]);
        1 + (match ds[0] {
            Some(x) => if (x as int) < i { cx_spec(ops, x as int) } else { 0 },
            None => 0,
        }) + (match ds[1] {
            Some(x) => if (x as int) < i { cx_spec(ops, x as int) } else { 0 },
            None => 0,
        }) + (match ds[2] {
            Some(x) => if (x as int) < i { cx_spec(ops, x as int) } else { 0 },
            None => 0,
        })
    }
}

/// Every subtree counts at least its own root.
pub proof fn lemma_cx_pos(ops: Seq<Operator>, i: int)
    ensures
        cx_spec(ops, i) >= 1,
    decreases i,
{
    if i >= 0 {
        let ds = spec_deps(ops[i]);
        match ds[0] {
            Some(x) => if (x as int) < i { lemma_cx_pos(ops, x as int) },
            None => {},
        }
        match ds[1] {
            Some(x) => if (x as int) < i { lemma_cx_pos(ops, x as int) },
            None => {},
        }
        match ds[2] {
            Some(x) => if (x as int) < i { lemma_cx_pos(ops, x as int) },
            None => {},
        }
    }
}

/// The structural-complexity score: the bounded transform of the subtree
/// node count (a plain count, scaled into fixed point before the
/// transform), subtracted from one: one unit minus `c / (1 + c)`.
pub open spec fn cx_score_spec(ops: Seq<Operator>, i: int) -> int {
    PROB_ONE - i21_spec(sat64(sat64(cx_spec(ops, i)) * PROB_ONE))
}

/// The squared error between a target value and a bucket value.
pub open spec fn sq(v: int) -> int {
    v * v
}

/// A square is never negative.
pub proof fn lemma_sq_nonneg(v: int)
    ensures
        sq(v) >= 0,
{
    assert(v * v >= 0) by (nonlinear_arith);
}

/// The probability-weighted squared error that the buckets `0..n` of one
/// distribution contribute, against target value `t`: each bucket's mass
/// times its squared distance from the target, with every term saturating
/// at the accumulator ceiling.
pub open spec fn bucket_err(d: Seq<u64>, t: int, n: int) -> int
    decreases n,
{
    if n <= 0 {
        0
    } else {
        bucket_err(d, t, n - 1) + sat64((d[n - 1] as int) * sq(t - (n - 1)))
    }
}

/// Every partial weighted-error mass is non-negative.
pub proof fn lemma_bucket_err_nonneg(d: Seq<u64>, t: int, n: int)
    ensures
        bucket_err(d, t, n) >= 0,
    decreases n,
{
    if n > 0 {
        lemma_bucket_err_nonneg(d, t, n - 1);
        lemma_sq_nonneg(t - (n - 1));
        vstd::arithmetic::mul::lemma_mul_nonnegative(d[n - 1] as int, sq(t - (n - 1)));
    }
}

/// The probability-weighted squared error summed over the first `n`
/// examples.
pub open spec fn err_total(
    dists: Seq<ComputedDistributions>,
    targets: Seq<Vec<usize>>,
    computed: int,
    output: int,
    n: int,
) -> int
    decreases n,
{
    if n <= 0 {
        0
    } else {
        err_total(dists, targets, computed, output, n - 1) + bucket_err(
            dists[n - 1].dist(computed),
            targets[n - 1]@[output] as int,
            dists[n - 1].buckets(),
        )
    }
}

/// Every partial error total is non-negative.
pub proof fn lemma_err_total_nonneg(
    dists: Seq<ComputedDistributions>,
    targets: Seq<Vec<usize>>,
    computed: int,
    output: int,
    n: int,
)
    ensures
        err_total(dists, targets, computed, output, n) >= 0,
    decreases n,
{
    if n > 0 {
        lemma_err_total_nonneg(dists, targets, computed, output, n - 1);
        lemma_bucket_err_nonneg(
            dists[n - 1].dist(computed),
            targets[n - 1]@[output] as int,
            dists[n - 1].buckets(),
        );
    }
}

/// The probabilistic-error score: the bounded transform of the weighted
/// squared error, subtracted from one.
pub open spec fn mse_spec(
    dists: Seq<ComputedDistributions>,
    targets: Seq<Vec<usize>>,
    computed: int,
    output: int,
) -> int {
    PROB_ONE - i21_spec(sat64(err_total(dists, targets, computed, output, dists.len() as int)))
}

/// The combined per-(slot, output) fitness: ten parts correctness, five
/// parts probabilistic error, one part structural complexity.
pub open spec fn score_for_output_spec(
    dists: Seq<ComputedDistributions>,
    computed: int,
    output: int,
    targets: Seq<Vec<usize>>,
    ops: Seq<Operator>,
) -> int {
    10 * pc_spec(dists, targets, computed, output) + 5 * mse_spec(dists, targets, computed, output)
        + cx_score_spec(ops, computed)
}

/// The bounded-transform value always lies in `[0, PROB_ONE)`.
pub proof fn lemma_i21_bounds(x: int)
    requires
        x >= 0,
    ensures
        0 <= i21_spec(x) < PROB_ONE,
{
    let oi = PROB_ONE as int;
    vstd::arithmetic::mul::lemma_mul_nonnegative(x, oi);
    vstd::arithmetic::div_mod::lemma_div_pos_is_pos(x * oi, oi + x);
    assert(x * oi < (oi + x) * oi) by (nonlinear_arith)
        requires
            x >= 0,
            oi == 65536,
    ;
    vstd::arithmetic::div_mod::lemma_multiply_divide_lt(x * oi, oi + x, oi);
}

/// The bounded transform of one full unit or more is at least one half
/// unit: a subtree of at least one node costs at least half the
/// complexity budget.
pub proof fn lemma_i21_at_least_half(x: int)
    requires
        x >= PROB_ONE,
    ensures
        i21_spec(x) >= PROB_HALF,
{
    let oi = PROB_ONE as int;
    let h = PROB_HALF as int;
    assert(h * (oi + x) <= x * oi) by (nonlinear_arith)
        requires
            x >= oi,
            oi == 65536,
            h == 32768,
    ;
    vstd::arithmetic::div_mod::lemma_div_is_ordered(h * (oi + x), x * oi, oi + x);
    vstd::arithmetic::div_mod::lemma_div_by_multiple(h, oi + x);
    vstd::arithmetic::mul::lemma_mul_is_commutative(h, oi + x);
}

/// Every combined fitness lies between one fixed-point step and fifteen
/// and a half units: correctness contributes at most ten units, the error
/// term at most five, and the complexity term at most half a unit, since
/// every subtree holds at least one node.
pub proof fn lemma_score_bounds(
    dists: Seq<ComputedDistributions>,
    computed: int,
    output: int,
    targets: Seq<Vec<usize>>,
    ops: Seq<Operator>,
)
    ensures
        1 <= score_for_output_spec(dists, computed, output, targets, ops) <= 15 * PROB_ONE
            + PROB_HALF,
{
    lemma_pc_bounds(dists, targets, computed, output);
    lemma_err_total_nonneg(dists, targets, computed, output, dists.len() as int);
    lemma_i21_bounds(sat64(err_total(dists, targets, computed, output, dists.len() as int)));
    lemma_cx_pos(ops, computed);
    vstd::arithmetic::mul::lemma_mul_nonnegative(sat64(cx_spec(ops, computed)), PROB_ONE as int);
    lemma_i21_bounds(sat64(sat64(cx_spec(ops, computed)) * PROB_ONE));
    assert(1 * PROB_ONE <= sat64(cx_spec(ops, computed)) * PROB_ONE) by {
        vstd::arithmetic::mul::lemma_mul_inequality(
            1,
            sat64(cx_spec(ops, computed)),
            PROB_ONE as int,
        );
    }
    lemma_i21_at_least_half(sat64(sat64(cx_spec(ops, computed)) * PROB_ONE));
}

/// Whether slot `k` lies in the dependency subtree rooted at slot `i`
/// (the root included).
pub open spec fn in_subtree(ops: Seq<Operator>, i: int, k: int) -> bool
    decreases i,
{
    k == i || exists|d: usize|
        #[trigger] is_dep(ops[i], d) && (d as int) < i && in_subtree(ops, d as int, k)
}

/// Subtree membership is closed under taking dependencies.
pub proof fn lemma_subtree_step(ops: Seq<Operator>, i: int, j: int, d: usize)
    requires
        ops_wf(ops),
        0 <= i < ops.len(),
        in_subtree(ops, i, j),
        0 <= j,
        is_dep(ops[j], d),
    ensures
        in_subtree(ops, i, d as int),
    decreases i,
{
    if j == i {
        assert((d as int) < i) by {
            lemma_dep_below(ops[i], d, i);
        }
        assert(in_subtree(ops, d as int, d as int));
    } else {
        let dd = choose|dd: usize|
            #[trigger] is_dep(ops[i], dd) && (dd as int) < i && in_subtree(ops, dd as int, j);
        lemma_subtree_step(ops, dd as int, j, d);
    }
}

/// The maximum of two scores.
pub open spec fn combine_spec(a: u64, b: u64) -> u64 {
    if a >= b {
        a
    } else {
        b
    }
}

/// The scores array after propagating `score` through the subtree of `i`:
/// every slot in the subtree is raised to at least `score`, everything
/// else keeps its value.
pub open spec fn propagated(
    ops: Seq<Operator>,
    scores: Seq<u64>,
    i: int,
    score: u64,
) -> Seq<u64> {
    Seq::new(
        scores.len(),
        |k: int| if in_subtree(ops, i, k) { combine_spec(scores[k], score) } else { scores[k] },
    )
}

/// Combines two scores by taking the larger one.
pub fn combine_scores(old_score: u64, new_score: u64) -> (r: u64)
    ensures
        r == combine_spec(old_score, new_score),
{
    if old_score >= new_score {
        old_score
    } else {
        new_score
    }
}

/// The fraction of examples where the slot's most-likely value equals the
/// target for the given output variable.
pub fn portion_correct_score(
    computed: usize,
    output: usize,
    dists: &Vec<ComputedDistributions>,
    targets: &Vec<Vec<usize>>,
) -> (r: u64)
    requires
        scoring_inputs_wf(dists@, targets@, computed as int, output as int),
    ensures
        r as int == pc_spec(dists@, targets@, computed as int, output as int),
        r <= PROB_ONE,
{
    let n = dists.len();
    let mut num_wrong: usize = 0;
    let mut e: usize = 0;
    while e < n
        invariant
            e <= n,
            n == dists@.len(),
            scoring_inputs_wf(dists@, targets@, computed as int, output as int),
            num_wrong as int == wrong_count(
                dists@,
                targets@,
                computed as int,
                output as int,
                e as int,
            ),
            num_wrong <= e,
        decreases n - e,
    {
        let de = &dists[e];
        let (v, _) = de.read_likely(computed);
        let te = &targets[e];
        if te[output] != v {
            num_wrong += 1;
        }
        e += 1;
    }
    proof {
        lemma_wrong_count_bounds(dists@, targets@, computed as int, output as int, n as int);
    }
    if n == 0 {
        PROB_ONE
    } else {
        let scaled = ((PROB_ONE as u128) * (num_wrong as u128) / (n as u128)) as u64;
        proof {
            let w = num_wrong as int;
            let oi = PROB_ONE as int;
            vstd::arithmetic::mul::lemma_mul_nonnegative(oi, w);
            vstd::arithmetic::div_mod::lemma_div_pos_is_pos(oi * w, n as int);
            vstd::arithmetic::mul::lemma_mul_inequality(w, n as int, oi);
            vstd::arithmetic::mul::lemma_mul_is_commutative(w, oi);
            vstd::arithmetic::mul::lemma_mul_is_commutative(n as int, oi);
            vstd::arithmetic::div_mod::lemma_div_is_ordered(oi * w, oi * (n as int), n as int);
            vstd::arithmetic::div_mod::lemma_div_by_multiple(oi, n as int);
            vstd::arithmetic::mul::lemma_mul_is_commutative(oi, n as int);
        }
        PROB_ONE - scaled
    }
}

/// The recursive node count of the dependency subtree rooted at
/// `computed`, saturating at the accumulator ceiling.
pub fn total_complexity(computed: usize, operators: &Vec<Operator>) -> (r: u64)
    requires
        ops_wf(operators@),
        computed < operators@.len(),
    ensures
        r as int == sat64(cx_spec(operators@, computed as int)),
        r >= 1,
    decreases computed,
{
    let op = operators[computed];
    let deps = op.dependents();
    let mut total: u64 = 1;
    let ghost ops = operators@;
    let ghost i = computed as int;
    let ghost ds = spec_deps(op);
    let ghost c0: int = match ds[0] {
        Some(x) => if (x as int) < i { cx_spec(ops, x as int) } else { 0 },
        None => 0,
    };
    let ghost c1: int = match ds[1] {
        Some(x) => if (x as int) < i { cx_spec(ops, x as int) } else { 0 },
        None => 0,
    };
    let ghost c2: int = match ds[2] {
        Some(x) => if (x as int) < i { cx_spec(ops, x as int) } else { 0 },
        None => 0,
    };
    if let Some(x) = deps[0] {
        proof {
            lemma_dep_below(op, x, i);
            lemma_cx_pos(ops, x as int);
        }
        let c = total_complexity(x, operators);
        proof {
            crate::prob::lemma_sat_fold(1, c0);
        }
        total = crate::prob::sat_add(total, c);
    }
    if let Some(x) = deps[1] {
        proof {
            lemma_dep_below(op, x, i);
            lemma_cx_pos(ops, x as int);
        }
        let c = total_complexity(x, operators);
        proof {
            crate::prob::lemma_sat_fold(1 + c0, c1);
        }
        total = crate::prob::sat_add(total, c);
    }
    if let Some(x) = deps[2] {
        proof {
            lemma_dep_below(op, x, i);
            lemma_cx_pos(ops, x as int);
        }
        let c = total_complexity(x, operators);
        proof {
            crate::prob::lemma_sat_fold(1 + c0 + c1, c2);
        }
        total = crate::prob::sat_add(total, c);
    }
    proof {
        lemma_cx_pos(ops, i);
    }
    total
}

/// The structural-complexity score of a slot.
pub fn complexity_score(computed: usize, operators: &Vec<Operator>) -> (r: u64)
    requires
        ops_wf(operators@),
        computed < operators@.len(),
    ensures
        r as int == cx_score_spec(operators@, computed as int),
        1 <= r <= PROB_ONE,
{
    let total = total_complexity(computed, operators);
    let scaled = sat_mul(total, PROB_ONE);
    let t = infinite_to_1(scaled);
    PROB_ONE - t
}

/// The probability-weighted squared error of a slot against one output
/// variable, transformed into a bounded score.
pub fn log_mse_score(
    computed: usize,
    output: usize,
    dists: &Vec<ComputedDistributions>,
    targets: &Vec<Vec<usize>>,
) -> (r: u64)
    requires
        scoring_inputs_wf(dists@, targets@, computed as int, output as int),
    ensures
        r as int == mse_spec(dists@, targets@, computed as int, output as int),
        1 <= r <= PROB_ONE,
{
    let n = dists.len();
    let mut error: u64 = 0;
    let mut e: usize = 0;
    while e < n
        invariant
            e <= n,
            n == dists@.len(),
            scoring_inputs_wf(dists@, targets@, computed as int, output as int),
            error as int == sat64(
                err_total(dists@, targets@, computed as int, output as int, e as int),
            ),
        decreases n - e,
    {
        let de = &dists[e];
        proof {
            de.lemma_wf_size();
            de.lemma_dist_bounded(computed as int);
            lemma_err_total_nonneg(dists@, targets@, computed as int, output as int, e as int);
        }
        let d = de.read(computed);
        let t = targets[e][output];
        let ghost dseq = de.dist(computed as int);
        let ghost ti = t as int;
        let m = d.len();
        let mut v: usize = 0;
        while v < m
            invariant
                v <= m,
                m == dseq.len(),
                d@ == dseq,
                forall|b: int| 0 <= b < dseq.len() ==> dseq[b] <= PROB_CAP,
                ti == t as int,
                error as int == sat64(
                    err_total(dists@, targets@, computed as int, output as int, e as int)
                        + bucket_err(dseq, ti, v as int),
                ),
                err_total(dists@, targets@, computed as int, output as int, e as int) >= 0,
            decreases m - v,
        {
            let pv = *vstd::slice::slice_index_get(d, v);
            let diff: usize = if t >= v {
                t - v
            } else {
                v - t
            };
            let errsq = sat_mul(diff as u64, diff as u64);
            let term = sat_mul(pv, errsq);
            proof {
                lemma_sq_nonneg(ti - v as int);
                assert(sq(ti - v as int) == (diff as int) * (diff as int)) by (nonlinear_arith)
                    requires
                        diff as int == (if ti >= v as int { ti - v as int } else { v as int - ti }),
                ;
                vstd::arithmetic::mul::lemma_mul_nonnegative(pv as int, sq(ti - v as int));
                crate::prob::lemma_sat_mul_clamp(pv as int, sq(ti - v as int));
                lemma_bucket_err_nonneg(dseq, ti, v as int);
                crate::prob::lemma_sat_fold(
                    err_total(dists@, targets@, computed as int, output as int, e as int)
                        + bucket_err(dseq, ti, v as int),
                    sat64((dseq[v as int] as int) * sq(ti - v as int)),
                );
            }
            error = sat_add(error, term);
            v += 1;
        }
        e += 1;
    }
    proof {
        lemma_err_total_nonneg(dists@, targets@, computed as int, output as int, n as int);
        lemma_i21_bounds(
            sat64(err_total(dists@, targets@, computed as int, output as int, n as int)),
        );
    }
    let t = infinite_to_1(error);
    PROB_ONE - t
}

/// The combined per-(slot, output) fitness.
pub fn compute_score_for_output(
    dists: &Vec<ComputedDistributions>,
    computed: usize,
    output: usize,
    targets: &Vec<Vec<usize>>,
    operators: &Vec<Operator>,
) -> (r: u64)
    requires
        scoring_inputs_wf(dists@, targets@, computed as int, output as int),
        ops_wf(operators@),
        computed < operators@.len(),
    ensures
        r as int == score_for_output_spec(
            dists@,
            computed as int,
            output as int,
            targets@,
            operators@,
        ),
        1 <= r <= 15 * PROB_ONE + PROB_HALF,
{
    proof {
        lemma_score_bounds(dists@, computed as int, output as int, targets@, operators@);
        lemma_pc_bounds(dists@, targets@, computed as int, output as int);
    }
    let pc = portion_correct_score(computed, output, dists, targets);
    let mse = log_mse_score(computed, output, dists, targets);
    let cx = complexity_score(computed, operators);
    10 * pc + 5 * mse + cx
}

/// Raises the score of every slot in the dependency subtree of `i` to at
/// least `score`; slots outside the subtree keep their scores.
pub fn propagate_score(operators: &Vec<Operator>, scores: &mut Vec<u64>, i: usize, score: u64)
    requires
        ops_wf(operators@),
        i < operators@.len(),
        operators@.len() == old(scores)@.len(),
    ensures
        final(scores)@ == propagated(operators@, old(scores)@, i as int, score),
    decreases i,
{
    let ghost ops = operators@;
    let ghost orig = scores@;
    let cur = scores[i];
    let comb = combine_scores(cur, score);
    scores.set(i, comb);
    let op = operators[i];
    let deps = op.dependents();
    let ghost s1 = scores@;
    proof {
        assert(in_subtree(ops, i as int, i as int));
    }
    if let Some(x) = deps[0] {
        proof {
            assert(is_dep(op, x));
            lemma_dep_below(op, x, i as int);
        }
        propagate_score(operators, scores, x, score);
    }
    let ghost s2 = scores@;
    if let Some(x) = deps[1] {
        proof {
            assert(is_dep(op, x));
            lemma_dep_below(op, x, i as int);
        }
        propagate_score(operators, scores, x, score);
    }
    let ghost s3 = scores@;
    if let Some(x) = deps[2] {
        proof {
            assert(is_dep(op, x));
            lemma_dep_below(op, x, i as int);
        }
        propagate_score(operators, scores, x, score);
    }
    proof {
        let ghost ds = spec_deps(op);
        assert forall|k: int| 0 <= k < scores@.len()
            implies scores@[k] == propagated(ops, orig, i as int, score)[k] by {
            if in_subtree(ops, i as int, k) {
                if k != i as int {
                    let d = choose|d: usize|
                        #[trigger] is_dep(ops[i as int], d) && (d as int) < i as int
                            && in_subtree(ops, d as int, k);
                    assert(ds[0] == Some(d) || ds[1] == Some(d) || ds[2] == Some(d));
                }
            } else {
                assert(k != i as int);
                assert forall|d: usize| is_dep(ops[i as int], d) && (d as int) < i as int
                    implies !in_subtree(ops, d as int, k) by {}
            }
        }
        assert(scores@ =~= propagated(ops, orig, i as int, score));
    }
}

/// The best (score, output-variable) pair over the first `n` output
/// variables, preferring the earliest variable on ties.
pub open spec fn best_of(
    dists: Seq<ComputedDistributions>,
    computed: int,
    targets: Seq<Vec<usize>>,
    ops: Seq<Operator>,
    n: int,
) -> (int, int)
    decreases n,
{
    if n <= 1 {
        (score_for_output_spec(dists, computed, 0, targets, ops), 0)
    } else {
        let prev = best_of(dists, computed, targets, ops, n - 1);
        let s = score_for_output_spec(dists, computed, n - 1, targets, ops);
        if s > prev.0 {
            (s, n - 1)
        } else {
            prev
        }
    }
}

/// Scores slot `i` against every output variable, picks the best, and
/// propagates that best score through the slot's dependency subtree.
pub fn score_values(
    dists: &Vec<ComputedDistributions>,
    i: usize,
    operators: &Vec<Operator>,
    scores: &mut Vec<u64>,
    targets: &Vec<Vec<usize>>,
) -> (r: (u64, usize))
    requires
        targets@.len() >= 1,
        targets@[0]@.len() >= 1,
        forall|e: int|
            0 <= e < targets@.len() ==> (#[trigger] targets@[e])@.len() == targets@[0]@.len(),
        forall|o: int|
            0 <= o < targets@[0]@.len()
                ==> scoring_inputs_wf(dists@, targets@, i as int, o),
        ops_wf(operators@),
        i < operators@.len(),
        operators@.len() == old(scores)@.len(),
    ensures
        (r.0 as int, r.1 as int) == best_of(
            dists@,
            i as int,
            targets@,
            operators@,
            targets@[0]@.len() as int,
        ),
        1 <= r.0 <= 15 * PROB_ONE + PROB_HALF,
        r.1 < targets@[0]@.len(),
        final(scores)@ == propagated(operators@, old(scores)@, i as int, r.0),
{
    let out_n = targets[0].len();
    let mut best_score = compute_score_for_output(dists, i, 0, targets, operators);
    let mut output: usize = 0;
    let mut oi: usize = 1;
    while oi < out_n
        invariant
            1 <= oi <= out_n,
            out_n == targets@[0]@.len(),
            targets@.len() >= 1,
            forall|e: int|
                0 <= e < targets@.len() ==> (#[trigger] targets@[e])@.len() == targets@[0]@.len(),
            forall|o: int|
                0 <= o < targets@[0]@.len()
                    ==> scoring_inputs_wf(dists@, targets@, i as int, o),
            ops_wf(operators@),
            i < operators@.len(),
            (best_score as int, output as int) == best_of(
                dists@,
                i as int,
                targets@,
                operators@,
                oi as int,
            ),
            1 <= best_score <= 15 * PROB_ONE + PROB_HALF,
            output < oi,
        decreases out_n - oi,
    {
        let score = compute_score_for_output(dists, i, oi, targets, operators);
        if score > best_score {
            best_score = score;
            output = oi;
        }
        oi += 1;
    }
    propagate_score(operators, scores, i, best_score);
    (best_score, output)
}

} // verus!
