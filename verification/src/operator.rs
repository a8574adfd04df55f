//! The tagged-variant DAG-node type: one operator per population slot,
//! with up to three dependency slot indices.  The invariant that every
//! dependency index lies below the operator's own slot keeps the graph
//! acyclic by construction.

use vstd::prelude::*;
use crate::computed_distributions::{
    ComputedDistributions, clamp_bucket, one_hot, conv1_dist, conv2_dist, conv3_dist,
    fn1_bucket, fn2_bucket, fn3_bucket, fnp0_choose, lemma_conv1_dist_congruent,
    lemma_conv2_dist_congruent, lemma_conv3_dist_congruent,
};
use crate::prob::PROB_HALF;
use crate::rng::{rng_next_u32, rng_next_u64};

verus! {

/// An operator in a generated program.
#[derive(Clone, Copy, Debug, PartialEq, Eq)]
pub enum Operator {
    Initial,
    Value(usize),
    Equality(usize, usize),
    Increment(usize),
    Ambiguity(usize),
    And(usize, usize),
    Or(usize, usize),
    Not(usize),
    Ite(usize, usize, usize),
}

/// The dependency slots of an operator, in fixed positional order.
pub open spec fn spec_deps(op: Operator) -> Seq<Option<usize>> {
    match op {
        Operator::Initial | Operator::Value(_) | Operator::Ambiguity(_) => seq![
            None,
            None,
            None,
        ],
        Operator::Increment(x) | Operator::Not(x) => seq![Some(x), None, None],
        Operator::Equality(x, y) | Operator::And(x, y) | Operator::Or(x, y) => seq![
            Some(x),
            Some(y),
            None,
        ],
        Operator::Ite(x, y, z) => seq![Some(x), Some(y), Some(z)],
    }
}

/// Whether slot `d` is one of the operator's dependencies.
pub open spec fn is_dep(op: Operator, d: usize) -> bool {
    spec_deps(op)[0] == Some(d) || spec_deps(op)[1] == Some(d) || spec_deps(op)[2] == Some(d)
}

/// Whether every dependency slot of the operator lies below `bound`; the
/// acyclicity invariant for an operator occupying slot `bound`.
pub open spec fn deps_below(op: Operator, bound: int) -> bool {
    match op {
        Operator::Initial | Operator::Value(_) | Operator::Ambiguity(_) => true,
        Operator::Increment(x) | Operator::Not(x) => x < bound,
        Operator::Equality(x, y) | Operator::And(x, y) | Operator::Or(x, y) => x < bound && y
            < bound,
        Operator::Ite(x, y, z) => x < bound && y < bound && z < bound,
    }
}

/// The value of the equality operator on concrete inputs.
pub open spec fn eq_val(x: int, y: int) -> int {
    if x == y {
        1
    } else {
        0
    }
}

/// The value of the conjunction operator (0 is false).
pub open spec fn and_val(x: int, y: int) -> int {
    if x != 0 && y != 0 {
        1
    } else {
        0
    }
}

/// The value of the disjunction operator (0 is false).
pub open spec fn or_val(x: int, y: int) -> int {
    if x != 0 || y != 0 {
        1
    } else {
        0
    }
}

/// The value of the negation operator (0 is false).
pub open spec fn not_val(x: int) -> int {
    if x != 0 {
        0
    } else {
        1
    }
}

/// The value of the if-then-else operator (0 is false).
pub open spec fn ite_val(x: int, y: int, z: int) -> int {
    if x != 0 {
        y
    } else {
        z
    }
}

/// Bucket map of the increment operator for domain size `size`.
pub open spec fn inc_bucket(size: int) -> spec_fn(int) -> int {
    |x: int| clamp_bucket(x + 1, size)
}

/// Bucket map of the negation operator.
pub open spec fn not_bucket(size: int) -> spec_fn(int) -> int {
    |x: int| clamp_bucket(not_val(x), size)
}

/// Bucket map of the equality operator.
pub open spec fn eq_bucket(size: int) -> spec_fn(int, int) -> int {
    |x: int, y: int| clamp_bucket(eq_val(x, y), size)
}

/// Bucket map of the conjunction operator.
pub open spec fn and_bucket(size: int) -> spec_fn(int, int) -> int {
    |x: int, y: int| clamp_bucket(and_val(x, y), size)
}

/// Bucket map of the disjunction operator.
pub open spec fn or_bucket(size: int) -> spec_fn(int, int) -> int {
    |x: int, y: int| clamp_bucket(or_val(x, y), size)
}

/// Bucket map of the if-then-else operator.
pub open spec fn ite_bucket(size: int) -> spec_fn(int, int, int) -> int {
    |x: int, y: int, z: int| clamp_bucket(ite_val(x, y, z), size)
}

/// The fixed 50/50 distribution the ambiguity operator always emits.
pub open spec fn ambiguity_dist(size: int) -> Seq<u64> {
    Seq::new((size + 1) as nat, |b: int| if b == 0 || b == 1 { PROB_HALF } else { 0u64 })
}

/// The mass the ambiguity operator puts on bucket `b`.
pub open spec fn ambiguity_mass(b: int) -> u64 {
    if b == 0 || b == 1 {
        PROB_HALF
    } else {
        0u64
    }
}

/// The distribution that running `op` writes into its target slot, given
/// the store's distributions before the run.
pub open spec fn op_output(cd: ComputedDistributions, op: Operator) -> Seq<u64> {
    let size = cd.size_spec();
    match op {
        Operator::Initial => Seq::empty(),
        Operator::Value(i) => one_hot(size, clamp_bucket(i as int, size)),
        Operator::Ambiguity(_) => ambiguity_dist(size),
        Operator::Equality(x, y) => conv2_dist(
            cd.dist(x as int),
            cd.dist(y as int),
            eq_bucket(size),
            size,
        ),
        Operator::And(x, y) => conv2_dist(
            cd.dist(x as int),
            cd.dist(y as int),
            and_bucket(size),
            size,
        ),
        Operator::Or(x, y) => conv2_dist(
            cd.dist(x as int),
            cd.dist(y as int),
            or_bucket(size),
            size,
        ),
        Operator::Increment(x) => conv1_dist(cd.dist(x as int), inc_bucket(size), size),
        Operator::Not(x) => conv1_dist(cd.dist(x as int), not_bucket(size), size),
        Operator::Ite(x, y, z) => conv3_dist(
            cd.dist(x as int),
            cd.dist(y as int),
            cd.dist(z as int),
            ite_bucket(size),
            size,
        ),
    }
}

/// Rewrites every dependency slot of `op` through the relocation map.
pub open spec fn relocate_spec(op: Operator, map: Seq<Option<usize>>) -> Operator {
    match op {
        Operator::Initial => Operator::Initial,
        Operator::Value(i) => Operator::Value(i),
        Operator::Ambiguity(i) => Operator::Ambiguity(i),
        Operator::Increment(x) => Operator::Increment(map[x as int]->0),
        Operator::Not(x) => Operator::Not(map[x as int]->0),
        Operator::Equality(x, y) => Operator::Equality(map[x as int]->0, map[y as int]->0),
        Operator::And(x, y) => Operator::And(map[x as int]->0, map[y as int]->0),
        Operator::Or(x, y) => Operator::Or(map[x as int]->0, map[y as int]->0),
        Operator::Ite(x, y, z) => Operator::Ite(
            map[x as int]->0,
            map[y as int]->0,
            map[z as int]->0,
        ),
    }
}

/// An operator's output distribution depends only on the distributions of
/// its dependency slots (and the domain size).
pub proof fn lemma_op_output_frame(cd1: ComputedDistributions, cd2: ComputedDistributions, op: Operator)
    requires
        cd1.size_spec() == cd2.size_spec(),
        forall|d: usize| is_dep(op, d) ==> cd1.dist(d as int) == cd2.dist(d as int),
    ensures
        op_output(cd1, op) == op_output(cd2, op),
{
    match op {
        Operator::Initial | Operator::Value(_) | Operator::Ambiguity(_) => {},
        Operator::Increment(x) | Operator::Not(x) => {
            assert(is_dep(op, x));
        },
        Operator::Equality(x, y) | Operator::And(x, y) | Operator::Or(x, y) => {
            assert(is_dep(op, x));
            assert(is_dep(op, y));
        },
        Operator::Ite(x, y, z) => {
            assert(is_dep(op, x));
            assert(is_dep(op, y));
            assert(is_dep(op, z));
        },
    }
}

/// Relocating through two maps that agree below a bound covering every
/// dependency gives the same operator.
pub proof fn lemma_relocate_spec_frame(
    op: Operator,
    m1: Seq<Option<usize>>,
    m2: Seq<Option<usize>>,
    bound: int,
)
    requires
        deps_below(op, bound),
        forall|k: int| 0 <= k < bound ==> m1[k] == m2[k],
    ensures
        relocate_spec(op, m1) == relocate_spec(op, m2),
{
}

/// A relocated operator's dependencies are the mapped dependencies, so
/// they lie below any bound that every mapped dependency respects.
pub proof fn lemma_relocate_deps(op: Operator, m: Seq<Option<usize>>, bound: int)
    requires
        !(op is Initial),
        deps_below(op, m.len() as int),
        forall|d: usize|
            is_dep(op, d) ==> (#[trigger] m[d as int]) is Some && (m[d as int]->0 as int) < bound,
    ensures
        deps_below(relocate_spec(op, m), bound),
        !(relocate_spec(op, m) is Initial),
{
    match op {
        Operator::Initial | Operator::Value(_) | Operator::Ambiguity(_) => {},
        Operator::Increment(x) | Operator::Not(x) => {
            assert(is_dep(op, x));
        },
        Operator::Equality(x, y) | Operator::And(x, y) | Operator::Or(x, y) => {
            assert(is_dep(op, x));
            assert(is_dep(op, y));
        },
        Operator::Ite(x, y, z) => {
            assert(is_dep(op, x));
            assert(is_dep(op, y));
            assert(is_dep(op, z));
        },
    }
}

/// Relocating an operator and moving its dependencies' distributions to
/// their new slots leaves the operator's output unchanged: the relocated
/// operator reads at the new indices exactly what the original read at
/// the old ones.
pub proof fn lemma_op_output_relocate(
    cd1: ComputedDistributions,
    cd2: ComputedDistributions,
    op: Operator,
    m: Seq<Option<usize>>,
)
    requires
        !(op is Initial),
        cd1.size_spec() == cd2.size_spec(),
        deps_below(op, m.len() as int),
        forall|d: usize| is_dep(op, d) ==> (#[trigger] m[d as int]) is Some,
        forall|d: usize|
            is_dep(op, d) ==> cd2.dist((#[trigger] m[d as int])->0 as int) == cd1.dist(d as int),
    ensures
        op_output(cd2, relocate_spec(op, m)) == op_output(cd1, op),
{
    match op {
        Operator::Initial | Operator::Value(_) | Operator::Ambiguity(_) => {},
        Operator::Increment(x) | Operator::Not(x) => {
            assert(is_dep(op, x));
        },
        Operator::Equality(x, y) | Operator::And(x, y) | Operator::Or(x, y) => {
            assert(is_dep(op, x));
            assert(is_dep(op, y));
        },
        Operator::Ite(x, y, z) => {
            assert(is_dep(op, x));
            assert(is_dep(op, y));
            assert(is_dep(op, z));
        },
    }
}

impl Operator {
    /// The (up to three) slot indices this operator reads, in fixed
    /// positional order.
    pub fn dependents(&self) -> (r: [Option<usize>; 3])
        ensures
            r@ == spec_deps(*self),
    {
        let r = match *self {
            Operator::Initial | Operator::Value(_) | Operator::Ambiguity(_) => [None, None, None],
            Operator::Increment(x) | Operator::Not(x) => [Some(x), None, None],
            Operator::Equality(x, y) | Operator::And(x, y) | Operator::Or(x, y) => [
                Some(x),
                Some(y),
                None,
            ],
            Operator::Ite(x, y, z) => [Some(x), Some(y), Some(z)],
        };
        proof {
            assert(r@ =~= spec_deps(*self));
        }
        r
    }

    /// Draws a new operator from the fixed weighted categorical
    /// distribution over variants; every drawn dependency index lies below
    /// `output_idx`, so the result may legally occupy slot `output_idx`.
    pub fn new_rand(rand_gen: &mut rand::rngs::SmallRng, output_idx: usize) -> (r: Operator)
        requires
            output_idx >= 1,
        ensures
            !(r is Initial),
            deps_below(r, output_idx as int),
    {
        // The weight table's single source of truth: weights out of 64.
        let total: u32 = 64;
        let op_idx = rng_next_u32(rand_gen) % total;
        if op_idx < 1 {
            Operator::Ambiguity(0)
        } else if op_idx < 2 {
            Operator::Value(0)
        } else if op_idx < 3 {
            Operator::Value(1)
        } else if op_idx < 4 {
            Operator::Value(2)
        } else if op_idx < 9 {
            Operator::Equality(rand_idx(rand_gen, output_idx), rand_idx(rand_gen, output_idx))
        } else if op_idx < 19 {
            Operator::Increment(rand_idx(rand_gen, output_idx))
        } else if op_idx < 29 {
            Operator::And(rand_idx(rand_gen, output_idx), rand_idx(rand_gen, output_idx))
        } else if op_idx < 39 {
            Operator::Or(rand_idx(rand_gen, output_idx), rand_idx(rand_gen, output_idx))
        } else if op_idx < 49 {
            Operator::Not(rand_idx(rand_gen, output_idx))
        } else {
            // op_idx < total holds by construction, so the weight table
            // above is exhaustive and Ite takes the remaining mass.
            assert(op_idx < total);
            Operator::Ite(
                rand_idx(rand_gen, output_idx),
                rand_idx(rand_gen, output_idx),
                rand_idx(rand_gen, output_idx),
            )
        }
    }

    /// Draws a new operator uniformly over the variant kinds; dependency
    /// indices again lie below `output_idx`.
    pub fn new_rand_uniform(rand_gen: &mut rand::rngs::SmallRng, output_idx: usize) -> (r:
        Operator)
        requires
            output_idx >= 1,
        ensures
            !(r is Initial),
            deps_below(r, output_idx as int),
    {
        let op_idx = rng_next_u32(rand_gen) % 9;
        match op_idx {
            0 => Operator::Value(0),
            1 => Operator::Value(1),
            2 => Operator::Equality(rand_idx(rand_gen, output_idx), rand_idx(rand_gen, output_idx)),
            3 => Operator::Increment(rand_idx(rand_gen, output_idx)),
            4 => Operator::Ambiguity(0),
            5 => Operator::And(rand_idx(rand_gen, output_idx), rand_idx(rand_gen, output_idx)),
            6 => Operator::Or(rand_idx(rand_gen, output_idx), rand_idx(rand_gen, output_idx)),
            7 => Operator::Not(rand_idx(rand_gen, output_idx)),
            8 => Operator::Ite(
                rand_idx(rand_gen, output_idx),
                rand_idx(rand_gen, output_idx),
                rand_idx(rand_gen, output_idx),
            ),
            _ => Operator::Value(2),
        }
    }

    /// Runs this operator: dispatches to the distribution store's
    /// convolution primitive for the operator's arity, with the operator's
    /// specific value function.  The `Initial` operator is never run:
    /// inputs are written directly into the store.
    pub fn run(&self, target: usize, dists: &mut ComputedDistributions)
        requires
            old(dists).wf(),
            !(*self is Initial),
            target < old(dists).count_spec(),
            deps_below(*self, target as int),
            *self is Ambiguity ==> old(dists).size_spec() >= 1,
        ensures
            final(dists).wf(),
            final(dists).size_spec() == old(dists).size_spec(),
            final(dists).count_spec() == old(dists).count_spec(),
            final(dists).total_len() == old(dists).total_len(),
            forall|s: int|
                0 <= s < final(dists).count_spec() && s != target
                    ==> final(dists).dist(s) == old(dists).dist(s),
            final(dists).dist(target as int) == op_output(*old(dists), *self),
    {
        let ghost size = old(dists).size_spec();
        proof {
            old(dists).lemma_wf_size();
        }
        match *self {
            Operator::Initial => {
                proof {
                    assert(false);
                }
            },
            Operator::Value(i) => {
                let f = move || -> (r: usize)
                    ensures
                        r == i,
                    { i };
                dists.compute_at_0(target, f);
            },
            Operator::Equality(x, y) => {
                let f = |a: usize, c: usize| -> (r: usize)
                    ensures
                        r == eq_val(a as int, c as int),
                    {
                        if a == c {
                            1
                        } else {
                            0
                        }
                    };
                dists.compute_at_2(target, (x, y), f);
                proof {
                    assert forall|a: int, c: int| 0 <= a < size && 0 <= c < size
                        implies #[trigger] fn2_bucket(f, size)(a, c) == eq_bucket(size)(a, c) by {
                        assert(call_ensures(
                            f,
                            (a as usize, c as usize),
                            crate::computed_distributions::fn2_choose(f, a as usize, c as usize),
                        ));
                    }
                    lemma_conv2_dist_congruent(
                        old(dists).dist(x as int),
                        old(dists).dist(y as int),
                        fn2_bucket(f, size),
                        eq_bucket(size),
                        size,
                    );
                }
            },
            Operator::And(x, y) => {
                let f = |a: usize, c: usize| -> (r: usize)
                    ensures
                        r == and_val(a as int, c as int),
                    {
                        if a != 0 && c != 0 {
                            1
                        } else {
                            0
                        }
                    };
                dists.compute_at_2(target, (x, y), f);
                proof {
                    assert forall|a: int, c: int| 0 <= a < size && 0 <= c < size
                        implies #[trigger] fn2_bucket(f, size)(a, c) == and_bucket(size)(a, c) by {
                        assert(call_ensures(
                            f,
                            (a as usize, c as usize),
                            crate::computed_distributions::fn2_choose(f, a as usize, c as usize),
                        ));
                    }
                    lemma_conv2_dist_congruent(
                        old(dists).dist(x as int),
                        old(dists).dist(y as int),
                        fn2_bucket(f, size),
                        and_bucket(size),
                        size,
                    );
                }
            },
            Operator::Or(x, y) => {
                let f = |a: usize, c: usize| -> (r: usize)
                    ensures
                        r == or_val(a as int, c as int),
                    {
                        if a != 0 || c != 0 {
                            1
                        } else {
                            0
                        }
                    };
                dists.compute_at_2(target, (x, y), f);
                proof {
                    assert forall|a: int, c: int| 0 <= a < size && 0 <= c < size
                        implies #[trigger] fn2_bucket(f, size)(a, c) == or_bucket(size)(a, c) by {
                        assert(call_ensures(
                            f,
                            (a as usize, c as usize),
                            crate::computed_distributions::fn2_choose(f, a as usize, c as usize),
                        ));
                    }
                    lemma_conv2_dist_congruent(
                        old(dists).dist(x as int),
                        old(dists).dist(y as int),
                        fn2_bucket(f, size),
                        or_bucket(size),
                        size,
                    );
                }
            },
            Operator::Increment(x) => {
                let f = |a: usize| -> (r: usize)
                    requires
                        a < usize::MAX,
                    ensures
                        r == a + 1,
                    { a + 1 };
                dists.compute_at_1(target, x, f);
                proof {
                    assert forall|a: int| 0 <= a < size
                        implies #[trigger] fn1_bucket(f, size)(a) == inc_bucket(size)(a) by {
                        assert(call_ensures(
                            f,
                            (a as usize,),
                            crate::computed_distributions::fn1_choose(f, a as usize),
                        ));
                    }
                    lemma_conv1_dist_congruent(
                        old(dists).dist(x as int),
                        fn1_bucket(f, size),
                        inc_bucket(size),
                        size,
                    );
                }
            },
            Operator::Not(x) => {
                let f = |a: usize| -> (r: usize)
                    ensures
                        r == not_val(a as int),
                    {
                        if a != 0 {
                            0
                        } else {
                            1
                        }
                    };
                dists.compute_at_1(target, x, f);
                proof {
                    assert forall|a: int| 0 <= a < size
                        implies #[trigger] fn1_bucket(f, size)(a) == not_bucket(size)(a) by {
                        assert(call_ensures(
                            f,
                            (a as usize,),
                            crate::computed_distributions::fn1_choose(f, a as usize),
                        ));
                    }
                    lemma_conv1_dist_congruent(
                        old(dists).dist(x as int),
                        fn1_bucket(f, size),
                        not_bucket(size),
                        size,
                    );
                }
            },
            Operator::Ite(x, y, z) => {
                let f = |a: usize, c: usize, e: usize| -> (r: usize)
                    ensures
                        r == ite_val(a as int, c as int, e as int),
                    {
                        if a != 0 {
                            c
                        } else {
                            e
                        }
                    };
                dists.compute_at_3(target, (x, y, z), f);
                proof {
                    assert forall|a: int, c: int, e: int|
                        0 <= a < size && 0 <= c < size && 0 <= e < size
                            implies #[trigger] fn3_bucket(f, size)(a, c, e) == ite_bucket(size)(
                            a,
                            c,
                            e,
                        ) by {
                        assert(call_ensures(
                            f,
                            (a as usize, c as usize, e as usize),
                            crate::computed_distributions::fn3_choose(
                                f,
                                a as usize,
                                c as usize,
                                e as usize,
                            ),
                        ));
                    }
                    lemma_conv3_dist_congruent(
                        old(dists).dist(x as int),
                        old(dists).dist(y as int),
                        old(dists).dist(z as int),
                        fn3_bucket(f, size),
                        ite_bucket(size),
                        size,
                    );
                }
            },
            Operator::Ambiguity(_) => {
                let f = |b: usize| -> (r: u64)
                    ensures
                        r == ambiguity_mass(b as int),
                    {
                        if b <= 1 {
                            PROB_HALF
                        } else {
                            0
                        }
                    };
                dists.compute_at_0_prob(target, f);
                proof {
                    assert forall|b: int| 0 <= b < size + 1
                        implies #[trigger] fnp0_choose(f, b as usize) == ambiguity_mass(b) by {
                        assert(call_ensures(f, (b as usize,), fnp0_choose(f, b as usize)));
                    }
                    assert(dists.dist(target as int) =~= ambiguity_dist(size));
                }
            },
        }
    }

    /// Rewrites every dependency slot through the relocation map; every
    /// dependency must have been relocated already.  `Initial` operators
    /// are never relocated: their slots are fixed.
    pub fn relocate(&self, relocations: &Vec<Option<usize>>) -> (r: Operator)
        requires
            !(*self is Initial),
            deps_below(*self, relocations@.len() as int),
            forall|d: usize| is_dep(*self, d) ==> relocations@[d as int] is Some,
        ensures
            r == relocate_spec(*self, relocations@),
            !(r is Initial),
    {
        match *self {
            Operator::Initial => {
                proof {
                    assert(false);
                }
                Operator::Initial
            },
            Operator::Value(i) => Operator::Value(i),
            Operator::Ambiguity(i) => Operator::Ambiguity(i),
            Operator::Increment(x) => {
                proof {
                    assert(is_dep(*self, x));
                }
                Operator::Increment(relocations[x].unwrap())
            },
            Operator::Not(x) => {
                proof {
                    assert(is_dep(*self, x));
                }
                Operator::Not(relocations[x].unwrap())
            },
            Operator::Equality(x, y) => {
                proof {
                    assert(is_dep(*self, x));
                    assert(is_dep(*self, y));
                }
                Operator::Equality(relocations[x].unwrap(), relocations[y].unwrap())
            },
            Operator::And(x, y) => {
                proof {
                    assert(is_dep(*self, x));
                    assert(is_dep(*self, y));
                }
                Operator::And(relocations[x].unwrap(), relocations[y].unwrap())
            },
            Operator::Or(x, y) => {
                proof {
                    assert(is_dep(*self, x));
                    assert(is_dep(*self, y));
                }
                Operator::Or(relocations[x].unwrap(), relocations[y].unwrap())
            },
            Operator::Ite(x, y, z) => {
                proof {
                    assert(is_dep(*self, x));
                    assert(is_dep(*self, y));
                    assert(is_dep(*self, z));
                }
                Operator::Ite(
                    relocations[x].unwrap(),
                    relocations[y].unwrap(),
                    relocations[z].unwrap(),
                )
            },
        }
    }
}

/// Draws a uniformly distributed slot index below `past_end`.
fn rand_idx(rand_gen: &mut rand::rngs::SmallRng, past_end: usize) -> (r: usize)
    requires
        past_end >= 1,
    ensures
        r < past_end,
{
    let bits = rng_next_u64(rand_gen);
    #[verifier::truncate]
    let w = bits as usize;
    w % past_end
}

} // verus!
