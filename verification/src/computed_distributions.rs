//! Stores an array of probability distributions over a finite, non-negative
//! integer domain.  Each such distribution is called a "computed
//! distribution": it is the computed probability distribution for the
//! population slot with the same index.
//!
//! A distribution for domain size `size` has `size + 1` buckets: buckets
//! `0..size` hold the mass of the ordinary domain values, and bucket `size`
//! holds the mass that is undefined.  Masses are fixed-point `u64` values
//! (see [`crate::prob`]).

use vstd::prelude::*;
use vstd::pervasive::VecAdditionalExecFns;
use vstd::slice::{slice_subrange, slice_to_vec};
use crate::prob::{PROB_ONE, PROB_CAP, capped, pmul_spec, padd, pmul};

verus! {

/// One distribution of `size + 1` buckets per population slot, flattened
/// into a single array.
#[derive(Clone, Debug)]
pub struct ComputedDistributions {
    size: usize,
    values: Vec<u64>,
}

/// The one-hot distribution over `size + 1` buckets that puts one full unit
/// of mass on value `v` (and no mass anywhere when `v` is out of range).
pub open spec fn one_hot(size: int, v: int) -> Seq<u64> {
    Seq::new((size + 1) as nat, |b: int| if b == v { PROB_ONE } else { 0u64 })
}

/// The index of the first maximal entry among the first `n` buckets of `d`
/// (ties go to the lowest index).
pub open spec fn argmax_first(d: Seq<u64>, n: int) -> int
    decreases n,
{
    if n <= 1 {
        0
    } else {
        let p = argmax_first(d, n - 1);
        if d[n - 1] > d[p] {
            n - 1
        } else {
            p
        }
    }
}

/// Folds an out-of-domain operator result into the undefined bucket.
pub open spec fn clamp_bucket(v: int, size: int) -> int {
    if v >= size {
        size
    } else {
        v
    }
}

/// The mass an undefined-propagation base contributes to bucket `b`:
/// all of it to the undefined bucket, none anywhere else.
pub open spec fn undef_base(b: int, size: int, u: int) -> int {
    if b == size {
        u
    } else {
        0
    }
}

/// Arity-1 convolution: the mass that input values `0..n` of `xd` send to
/// bucket `b` under the bucket map `g`.
pub open spec fn conv1_sum(xd: Seq<u64>, g: spec_fn(int) -> int, b: int, n: int) -> int
    decreases n,
{
    if n <= 0 {
        0
    } else {
        conv1_sum(xd, g, b, n - 1) + if g(n - 1) == b {
            xd[n - 1] as int
        } else {
            0
        }
    }
}

/// One row of the arity-2 convolution: input pair `(x, y)` contributes the
/// product of the two masses; `y` ranges over `0..n`.
pub open spec fn conv2_row(
    px: int,
    yd: Seq<u64>,
    g: spec_fn(int, int) -> int,
    x: int,
    b: int,
    n: int,
) -> int
    decreases n,
{
    if n <= 0 {
        0
    } else {
        conv2_row(px, yd, g, x, b, n - 1) + if g(x, n - 1) == b {
            pmul_spec(px, yd[n - 1] as int)
        } else {
            0
        }
    }
}

/// Arity-2 convolution: the mass that input pairs in `[0, n) x [0, ny)`
/// send to bucket `b`.
pub open spec fn conv2_sum(
    xd: Seq<u64>,
    yd: Seq<u64>,
    g: spec_fn(int, int) -> int,
    b: int,
    n: int,
    ny: int,
) -> int
    decreases n,
{
    if n <= 0 {
        0
    } else {
        conv2_sum(xd, yd, g, b, n - 1, ny) + conv2_row(xd[n - 1] as int, yd, g, n - 1, b, ny)
    }
}

/// Innermost line of the arity-3 convolution: `pxy` is the combined mass of
/// the first two inputs; `z` ranges over `0..n`.
pub open spec fn conv3_cell(
    pxy: int,
    zd: Seq<u64>,
    g: spec_fn(int, int, int) -> int,
    x: int,
    y: int,
    b: int,
    n: int,
) -> int
    decreases n,
{
    if n <= 0 {
        0
    } else {
        conv3_cell(pxy, zd, g, x, y, b, n - 1) + if g(x, y, n - 1) == b {
            pmul_spec(pxy, zd[n - 1] as int)
        } else {
            0
        }
    }
}

/// One plane of the arity-3 convolution: `y` ranges over `0..n`, `z` over
/// `0..nz`.
pub open spec fn conv3_row(
    px: int,
    yd: Seq<u64>,
    zd: Seq<u64>,
    g: spec_fn(int, int, int) -> int,
    x: int,
    b: int,
    n: int,
    nz: int,
) -> int
    decreases n,
{
    if n <= 0 {
        0
    } else {
        conv3_row(px, yd, zd, g, x, b, n - 1, nz) + conv3_cell(
            pmul_spec(px, yd[n - 1] as int),
            zd,
            g,
            x,
            n - 1,
            b,
            nz,
        )
    }
}

/// Arity-3 convolution: the mass that input triples in
/// `[0, n) x [0, ny) x [0, nz)` send to bucket `b`.
pub open spec fn conv3_sum(
    xd: Seq<u64>,
    yd: Seq<u64>,
    zd: Seq<u64>,
    g: spec_fn(int, int, int) -> int,
    b: int,
    n: int,
    ny: int,
    nz: int,
) -> int
    decreases n,
{
    if n <= 0 {
        0
    } else {
        conv3_sum(xd, yd, zd, g, b, n - 1, ny, nz) + conv3_row(
            xd[n - 1] as int,
            yd,
            zd,
            g,
            n - 1,
            b,
            ny,
            nz,
        )
    }
}

/// The whole arity-1 result distribution: for each bucket, the undefined
/// base plus the convolution mass, clamped to the mass ceiling.
pub open spec fn conv1_dist(xd: Seq<u64>, g: spec_fn(int) -> int, size: int) -> Seq<u64> {
    Seq::new(
        (size + 1) as nat,
        |b: int| capped(undef_base(b, size, xd[size] as int) + conv1_sum(xd, g, b, size)) as u64,
    )
}

/// The whole arity-2 result distribution.
pub open spec fn conv2_dist(
    xd: Seq<u64>,
    yd: Seq<u64>,
    g: spec_fn(int, int) -> int,
    size: int,
) -> Seq<u64> {
    Seq::new(
        (size + 1) as nat,
        |b: int| capped(
            undef_base(b, size, xd[size] + yd[size]) + conv2_sum(xd, yd, g, b, size, size),
        ) as u64,
    )
}

/// The whole arity-3 result distribution.
pub open spec fn conv3_dist(
    xd: Seq<u64>,
    yd: Seq<u64>,
    zd: Seq<u64>,
    g: spec_fn(int, int, int) -> int,
    size: int,
) -> Seq<u64> {
    Seq::new(
        (size + 1) as nat,
        |b: int| capped(
            undef_base(b, size, xd[size] + yd[size] + zd[size]) + conv3_sum(
                xd,
                yd,
                zd,
                g,
                b,
                size,
                size,
                size,
            ),
        ) as u64,
    )
}

/// Every partial arity-1 convolution mass is non-negative.
pub proof fn lemma_conv1_sum_nonneg(xd: Seq<u64>, g: spec_fn(int) -> int, b: int, n: int)
    ensures
        conv1_sum(xd, g, b, n) >= 0,
    decreases n,
{
    if n > 0 {
        lemma_conv1_sum_nonneg(xd, g, b, n - 1);
    }
}

/// Every partial arity-2 row mass is non-negative.
pub proof fn lemma_conv2_row_nonneg(
    px: int,
    yd: Seq<u64>,
    g: spec_fn(int, int) -> int,
    x: int,
    b: int,
    n: int,
)
    requires
        px >= 0,
    ensures
        conv2_row(px, yd, g, x, b, n) >= 0,
    decreases n,
{
    if n > 0 {
        lemma_conv2_row_nonneg(px, yd, g, x, b, n - 1);
        crate::prob::lemma_pmul_spec_bounds(px, yd[n - 1] as int);
    }
}

/// Every partial arity-2 convolution mass is non-negative.
pub proof fn lemma_conv2_sum_nonneg(
    xd: Seq<u64>,
    yd: Seq<u64>,
    g: spec_fn(int, int) -> int,
    b: int,
    n: int,
    ny: int,
)
    ensures
        conv2_sum(xd, yd, g, b, n, ny) >= 0,
    decreases n,
{
    if n > 0 {
        lemma_conv2_sum_nonneg(xd, yd, g, b, n - 1, ny);
        lemma_conv2_row_nonneg(xd[n - 1] as int, yd, g, n - 1, b, ny);
    }
}

/// Every partial arity-3 line mass is non-negative.
pub proof fn lemma_conv3_cell_nonneg(
    pxy: int,
    zd: Seq<u64>,
    g: spec_fn(int, int, int) -> int,
    x: int,
    y: int,
    b: int,
    n: int,
)
    requires
        pxy >= 0,
    ensures
        conv3_cell(pxy, zd, g, x, y, b, n) >= 0,
    decreases n,
{
    if n > 0 {
        lemma_conv3_cell_nonneg(pxy, zd, g, x, y, b, n - 1);
        crate::prob::lemma_pmul_spec_bounds(pxy, zd[n - 1] as int);
    }
}

/// Every partial arity-3 plane mass is non-negative.
pub proof fn lemma_conv3_row_nonneg(
    px: int,
    yd: Seq<u64>,
    zd: Seq<u64>,
    g: spec_fn(int, int, int) -> int,
    x: int,
    b: int,
    n: int,
    nz: int,
)
    requires
        px >= 0,
    ensures
        conv3_row(px, yd, zd, g, x, b, n, nz) >= 0,
    decreases n,
{
    if n > 0 {
        lemma_conv3_row_nonneg(px, yd, zd, g, x, b, n - 1, nz);
        crate::prob::lemma_pmul_spec_bounds(px, yd[n - 1] as int);
        lemma_conv3_cell_nonneg(pmul_spec(px, yd[n - 1] as int), zd, g, x, n - 1, b, nz);
    }
}

/// Every partial arity-3 convolution mass is non-negative.
pub proof fn lemma_conv3_sum_nonneg(
    xd: Seq<u64>,
    yd: Seq<u64>,
    zd: Seq<u64>,
    g: spec_fn(int, int, int) -> int,
    b: int,
    n: int,
    ny: int,
    nz: int,
)
    ensures
        conv3_sum(xd, yd, zd, g, b, n, ny, nz) >= 0,
    decreases n,
{
    if n > 0 {
        lemma_conv3_sum_nonneg(xd, yd, zd, g, b, n - 1, ny, nz);
        lemma_conv3_row_nonneg(xd[n - 1] as int, yd, zd, g, n - 1, b, ny, nz);
    }
}

/// A possible result of a 0-ary value function.
pub open spec fn fn0_choose<F: Fn() -> usize>(f: F) -> usize {
    choose|r: usize| #[trigger] call_ensures(f, (), r)
}

/// Whether a 0-ary value function can return at all.
pub open spec fn fn0_can<F: Fn() -> usize>(f: F) -> bool {
    call_ensures(f, (), fn0_choose(f))
}

/// Whether a 0-ary value function is deterministic.
pub open spec fn fn0_det<F: Fn() -> usize>(f: F) -> bool {
    forall|r1: usize, r2: usize|
        #[trigger] call_ensures(f, (), r1) && #[trigger] call_ensures(f, (), r2) ==> r1 == r2
}

/// The value a deterministic 0-ary value function returns.
pub open spec fn fn0_val<F: Fn() -> usize>(f: F) -> int {
    fn0_choose(f) as int
}

/// Whether a 1-ary value function accepts every domain value.
pub open spec fn fn1_req<F: Fn(usize) -> usize>(f: F, size: int) -> bool {
    forall|x: usize| x < size ==> #[trigger] call_requires(f, (x,))
}

/// Whether a 1-ary value function is deterministic on the domain.
pub open spec fn fn1_det<F: Fn(usize) -> usize>(f: F, size: int) -> bool {
    forall|x: usize, r1: usize, r2: usize|
        x < size && #[trigger] call_ensures(f, (x,), r1) && #[trigger] call_ensures(f, (x,), r2)
            ==> r1 == r2
}

/// A possible result of a 1-ary value function on `x`.
pub open spec fn fn1_choose<F: Fn(usize) -> usize>(f: F, x: usize) -> usize {
    choose|r: usize| #[trigger] call_ensures(f, (x,), r)
}

/// Whether a 1-ary value function can return on every domain value.
pub open spec fn fn1_can<F: Fn(usize) -> usize>(f: F, size: int) -> bool {
    forall|x: usize| x < size ==> #[trigger] call_ensures(f, (x,), fn1_choose(f, x))
}

/// The value a deterministic 1-ary value function returns on `x`.
pub open spec fn fn1_val<F: Fn(usize) -> usize>(f: F, x: int) -> int {
    fn1_choose(f, x as usize) as int
}

/// The bucket map of a 1-ary value function: its value, clamped into the
/// domain-plus-undefined range.
pub open spec fn fn1_bucket<F: Fn(usize) -> usize>(f: F, size: int) -> spec_fn(int) -> int {
    |x: int| clamp_bucket(fn1_val(f, x), size)
}

/// Whether a 2-ary value function accepts every pair of domain values.
pub open spec fn fn2_req<F: Fn(usize, usize) -> usize>(f: F, size: int) -> bool {
    forall|x: usize, y: usize| x < size && y < size ==> #[trigger] call_requires(f, (x, y))
}

/// Whether a 2-ary value function is deterministic on the domain.
pub open spec fn fn2_det<F: Fn(usize, usize) -> usize>(f: F, size: int) -> bool {
    forall|x: usize, y: usize, r1: usize, r2: usize|
        x < size && y < size && #[trigger] call_ensures(f, (x, y), r1)
            && #[trigger] call_ensures(f, (x, y), r2) ==> r1 == r2
}

/// A possible result of a 2-ary value function on `(x, y)`.
pub open spec fn fn2_choose<F: Fn(usize, usize) -> usize>(f: F, x: usize, y: usize) -> usize {
    choose|r: usize| #[trigger] call_ensures(f, (x, y), r)
}

/// Whether a 2-ary value function can return on every pair of domain values.
pub open spec fn fn2_can<F: Fn(usize, usize) -> usize>(f: F, size: int) -> bool {
    forall|x: usize, y: usize|
        x < size && y < size ==> #[trigger] call_ensures(f, (x, y), fn2_choose(f, x, y))
}

/// The value a deterministic 2-ary value function returns on `(x, y)`.
pub open spec fn fn2_val<F: Fn(usize, usize) -> usize>(f: F, x: int, y: int) -> int {
    fn2_choose(f, x as usize, y as usize) as int
}

/// The bucket map of a 2-ary value function.
pub open spec fn fn2_bucket<F: Fn(usize, usize) -> usize>(f: F, size: int) -> spec_fn(
    int,
    int,
) -> int {
    |x: int, y: int| clamp_bucket(fn2_val(f, x, y), size)
}

/// Whether a 3-ary value function accepts every triple of domain values.
pub open spec fn fn3_req<F: Fn(usize, usize, usize) -> usize>(f: F, size: int) -> bool {
    forall|x: usize, y: usize, z: usize|
        x < size && y < size && z < size ==> #[trigger] call_requires(f, (x, y, z))
}

/// Whether a 3-ary value function is deterministic on the domain.
pub open spec fn fn3_det<F: Fn(usize, usize, usize) -> usize>(f: F, size: int) -> bool {
    forall|x: usize, y: usize, z: usize, r1: usize, r2: usize|
        x < size && y < size && z < size && #[trigger] call_ensures(f, (x, y, z), r1)
            && #[trigger] call_ensures(f, (x, y, z), r2) ==> r1 == r2
}

/// A possible result of a 3-ary value function on `(x, y, z)`.
pub open spec fn fn3_choose<F: Fn(usize, usize, usize) -> usize>(f: F, x: usize, y: usize, z: usize) -> usize {
    choose|r: usize| #[trigger] call_ensures(f, (x, y, z), r)
}

/// Whether a 3-ary value function can return on every triple.
pub open spec fn fn3_can<F: Fn(usize, usize, usize) -> usize>(f: F, size: int) -> bool {
    forall|x: usize, y: usize, z: usize|
        x < size && y < size && z < size
            ==> #[trigger] call_ensures(f, (x, y, z), fn3_choose(f, x, y, z))
}

/// The value a deterministic 3-ary value function returns on `(x, y, z)`.
pub open spec fn fn3_val<F: Fn(usize, usize, usize) -> usize>(f: F, x: int, y: int, z: int) -> int {
    fn3_choose(f, x as usize, y as usize, z as usize) as int
}

/// The bucket map of a 3-ary value function.
pub open spec fn fn3_bucket<F: Fn(usize, usize, usize) -> usize>(f: F, size: int) -> spec_fn(
    int,
    int,
    int,
) -> int {
    |x: int, y: int, z: int| clamp_bucket(fn3_val(f, x, y, z), size)
}

/// Two bucket maps that agree on the inputs produce the same arity-1
/// convolution mass.
pub proof fn lemma_conv1_sum_congruent(
    xd: Seq<u64>,
    g1: spec_fn(int) -> int,
    g2: spec_fn(int) -> int,
    b: int,
    n: int,
)
    requires
        forall|x: int| 0 <= x < n ==> #[trigger] g1(x) == g2(x),
    ensures
        conv1_sum(xd, g1, b, n) == conv1_sum(xd, g2, b, n),
    decreases n,
{
    if n > 0 {
        lemma_conv1_sum_congruent(xd, g1, g2, b, n - 1);
    }
}

/// Two bucket maps that agree on the inputs produce the same arity-1
/// result distribution.
pub proof fn lemma_conv1_dist_congruent(
    xd: Seq<u64>,
    g1: spec_fn(int) -> int,
    g2: spec_fn(int) -> int,
    size: int,
)
    requires
        forall|x: int| 0 <= x < size ==> #[trigger] g1(x) == g2(x),
    ensures
        conv1_dist(xd, g1, size) == conv1_dist(xd, g2, size),
{
    assert forall|b: int| 0 <= b < size + 1
        implies conv1_dist(xd, g1, size)[b] == conv1_dist(xd, g2, size)[b] by {
        lemma_conv1_sum_congruent(xd, g1, g2, b, size);
    }
    assert(conv1_dist(xd, g1, size) =~= conv1_dist(xd, g2, size));
}

/// Row version of the arity-2 congruence.
pub proof fn lemma_conv2_row_congruent(
    px: int,
    yd: Seq<u64>,
    g1: spec_fn(int, int) -> int,
    g2: spec_fn(int, int) -> int,
    x: int,
    b: int,
    n: int,
)
    requires
        forall|y: int| 0 <= y < n ==> #[trigger] g1(x, y) == g2(x, y),
    ensures
        conv2_row(px, yd, g1, x, b, n) == conv2_row(px, yd, g2, x, b, n),
    decreases n,
{
    if n > 0 {
        lemma_conv2_row_congruent(px, yd, g1, g2, x, b, n - 1);
    }
}

/// Two bucket maps that agree on the input pairs produce the same arity-2
/// convolution mass.
pub proof fn lemma_conv2_sum_congruent(
    xd: Seq<u64>,
    yd: Seq<u64>,
    g1: spec_fn(int, int) -> int,
    g2: spec_fn(int, int) -> int,
    b: int,
    n: int,
    ny: int,
)
    requires
        forall|x: int, y: int| 0 <= x < n && 0 <= y < ny ==> #[trigger] g1(x, y) == g2(x, y),
    ensures
        conv2_sum(xd, yd, g1, b, n, ny) == conv2_sum(xd, yd, g2, b, n, ny),
    decreases n,
{
    if n > 0 {
        lemma_conv2_sum_congruent(xd, yd, g1, g2, b, n - 1, ny);
        lemma_conv2_row_congruent(xd[n - 1] as int, yd, g1, g2, n - 1, b, ny);
    }
}

/// Two bucket maps that agree on the input pairs produce the same arity-2
/// result distribution.
pub proof fn lemma_conv2_dist_congruent(
    xd: Seq<u64>,
    yd: Seq<u64>,
    g1: spec_fn(int, int) -> int,
    g2: spec_fn(int, int) -> int,
    size: int,
)
    requires
        forall|x: int, y: int| 0 <= x < size && 0 <= y < size ==> #[trigger] g1(x, y) == g2(x, y),
    ensures
        conv2_dist(xd, yd, g1, size) == conv2_dist(xd, yd, g2, size),
{
    assert forall|b: int| 0 <= b < size + 1
        implies conv2_dist(xd, yd, g1, size)[b] == conv2_dist(xd, yd, g2, size)[b] by {
        lemma_conv2_sum_congruent(xd, yd, g1, g2, b, size, size);
    }
    assert(conv2_dist(xd, yd, g1, size) =~= conv2_dist(xd, yd, g2, size));
}

/// Line version of the arity-3 congruence.
pub proof fn lemma_conv3_cell_congruent(
    pxy: int,
    zd: Seq<u64>,
    g1: spec_fn(int, int, int) -> int,
    g2: spec_fn(int, int, int) -> int,
    x: int,
    y: int,
    b: int,
    n: int,
)
    requires
        forall|z: int| 0 <= z < n ==> #[trigger] g1(x, y, z) == g2(x, y, z),
    ensures
        conv3_cell(pxy, zd, g1, x, y, b, n) == conv3_cell(pxy, zd, g2, x, y, b, n),
    decreases n,
{
    if n > 0 {
        lemma_conv3_cell_congruent(pxy, zd, g1, g2, x, y, b, n - 1);
    }
}

/// Plane version of the arity-3 congruence.
pub proof fn lemma_conv3_row_congruent(
    px: int,
    yd: Seq<u64>,
    zd: Seq<u64>,
    g1: spec_fn(int, int, int) -> int,
    g2: spec_fn(int, int, int) -> int,
    x: int,
    b: int,
    n: int,
    nz: int,
)
    requires
        forall|y: int, z: int| 0 <= y < n && 0 <= z < nz ==> #[trigger] g1(x, y, z) == g2(x, y, z),
    ensures
        conv3_row(px, yd, zd, g1, x, b, n, nz) == conv3_row(px, yd, zd, g2, x, b, n, nz),
    decreases n,
{
    if n > 0 {
        lemma_conv3_row_congruent(px, yd, zd, g1, g2, x, b, n - 1, nz);
        lemma_conv3_cell_congruent(
            pmul_spec(px, yd[n - 1] as int),
            zd,
            g1,
            g2,
            x,
            n - 1,
            b,
            nz,
        );
    }
}

/// Two bucket maps that agree on the input triples produce the same
/// arity-3 convolution mass.
pub proof fn lemma_conv3_sum_congruent(
    xd: Seq<u64>,
    yd: Seq<u64>,
    zd: Seq<u64>,
    g1: spec_fn(int, int, int) -> int,
    g2: spec_fn(int, int, int) -> int,
    b: int,
    n: int,
    ny: int,
    nz: int,
)
    requires
        forall|x: int, y: int, z: int|
            0 <= x < n && 0 <= y < ny && 0 <= z < nz ==> #[trigger] g1(x, y, z) == g2(x, y, z),
    ensures
        conv3_sum(xd, yd, zd, g1, b, n, ny, nz) == conv3_sum(xd, yd, zd, g2, b, n, ny, nz),
    decreases n,
{
    if n > 0 {
        lemma_conv3_sum_congruent(xd, yd, zd, g1, g2, b, n - 1, ny, nz);
        lemma_conv3_row_congruent(xd[n - 1] as int, yd, zd, g1, g2, n - 1, b, ny, nz);
    }
}

/// Two bucket maps that agree on the input triples produce the same
/// arity-3 result distribution.
pub proof fn lemma_conv3_dist_congruent(
    xd: Seq<u64>,
    yd: Seq<u64>,
    zd: Seq<u64>,
    g1: spec_fn(int, int, int) -> int,
    g2: spec_fn(int, int, int) -> int,
    size: int,
)
    requires
        forall|x: int, y: int, z: int|
            0 <= x < size && 0 <= y < size && 0 <= z < size
                ==> #[trigger] g1(x, y, z) == g2(x, y, z),
    ensures
        conv3_dist(xd, yd, zd, g1, size) == conv3_dist(xd, yd, zd, g2, size),
{
    assert forall|b: int| 0 <= b < size + 1
        implies conv3_dist(xd, yd, zd, g1, size)[b] == conv3_dist(xd, yd, zd, g2, size)[b] by {
        lemma_conv3_sum_congruent(xd, yd, zd, g1, g2, b, size, size, size);
    }
    assert(conv3_dist(xd, yd, zd, g1, size) =~= conv3_dist(xd, yd, zd, g2, size));
}

/// A possible result of a bucket-mass function on bucket `b`.
pub open spec fn fnp0_choose<F: Fn(usize) -> u64>(f: F, b: usize) -> u64 {
    choose|r: u64| #[trigger] call_ensures(f, (b,), r)
}

/// Whether a bucket-mass function accepts every bucket index.
pub open spec fn fnp0_req<F: Fn(usize) -> u64>(f: F, size: int) -> bool {
    forall|b: usize| b <= size ==> #[trigger] call_requires(f, (b,))
}

/// Whether a bucket-mass function is deterministic on the buckets.
pub open spec fn fnp0_det<F: Fn(usize) -> u64>(f: F, size: int) -> bool {
    forall|b: usize, r1: u64, r2: u64|
        b <= size && #[trigger] call_ensures(f, (b,), r1) && #[trigger] call_ensures(f, (b,), r2)
            ==> r1 == r2
}

/// Whether a bucket-mass function keeps below the mass ceiling.
pub open spec fn fnp0_bounded<F: Fn(usize) -> u64>(f: F, size: int) -> bool {
    forall|b: usize, r: u64| b <= size && #[trigger] call_ensures(f, (b,), r) ==> r <= PROB_CAP
}

/// Whether a bucket-mass function can return on every bucket.
pub open spec fn fnp0_can<F: Fn(usize) -> u64>(f: F, size: int) -> bool {
    forall|b: usize| b <= size ==> #[trigger] call_ensures(f, (b,), fnp0_choose(f, b))
}

/// A possible result of an accumulator function on bucket `b`, input value
/// `x` carrying mass `px`.
pub open spec fn fnp1_choose<F: Fn(usize, usize, u64) -> u64>(
    f: F,
    b: usize,
    x: usize,
    px: u64,
) -> u64 {
    choose|r: u64| #[trigger] call_ensures(f, (b, x, px), r)
}

/// Whether an accumulator function accepts every bucket and input value of
/// the input distribution `xd` (the undefined bucket included).
pub open spec fn fnp1_req<F: Fn(usize, usize, u64) -> u64>(f: F, size: int, xd: Seq<u64>) -> bool {
    forall|b: usize, x: usize|
        b <= size && x <= size ==> #[trigger] call_requires(f, (b, x, xd[x as int]))
}

/// Whether an accumulator function is deterministic on those arguments.
pub open spec fn fnp1_det<F: Fn(usize, usize, u64) -> u64>(f: F, size: int, xd: Seq<u64>) -> bool {
    forall|b: usize, x: usize, r1: u64, r2: u64|
        b <= size && x <= size && #[trigger] call_ensures(f, (b, x, xd[x as int]), r1)
            && #[trigger] call_ensures(f, (b, x, xd[x as int]), r2) ==> r1 == r2
}

/// Whether an accumulator function keeps below the mass ceiling.
pub open spec fn fnp1_bounded<F: Fn(usize, usize, u64) -> u64>(
    f: F,
    size: int,
    xd: Seq<u64>,
) -> bool {
    forall|b: usize, x: usize, r: u64|
        b <= size && x <= size && #[trigger] call_ensures(f, (b, x, xd[x as int]), r)
            ==> r <= PROB_CAP
}

/// Whether an accumulator function can return on every argument pair.
pub open spec fn fnp1_can<F: Fn(usize, usize, u64) -> u64>(f: F, size: int, xd: Seq<u64>) -> bool {
    forall|b: usize, x: usize|
        b <= size && x <= size
            ==> #[trigger] call_ensures(f, (b, x, xd[x as int]), fnp1_choose(f, b, x, xd[x as int]))
}

/// A possible result of a two-input accumulator function.
pub open spec fn fnp2_choose<F: Fn(usize, usize, u64, usize, u64) -> u64>(
    f: F,
    b: usize,
    x: usize,
    px: u64,
    y: usize,
    py: u64,
) -> u64 {
    choose|r: u64| #[trigger] call_ensures(f, (b, x, px, y, py), r)
}

/// Whether a two-input accumulator function accepts every bucket and pair
/// of input values (the undefined buckets included).
pub open spec fn fnp2_req<F: Fn(usize, usize, u64, usize, u64) -> u64>(
    f: F,
    size: int,
    xd: Seq<u64>,
    yd: Seq<u64>,
) -> bool {
    forall|b: usize, x: usize, y: usize|
        b <= size && x <= size && y <= size
            ==> #[trigger] call_requires(f, (b, x, xd[x as int], y, yd[y as int]))
}

/// Whether a two-input accumulator function is deterministic there.
pub open spec fn fnp2_det<F: Fn(usize, usize, u64, usize, u64) -> u64>(
    f: F,
    size: int,
    xd: Seq<u64>,
    yd: Seq<u64>,
) -> bool {
    forall|b: usize, x: usize, y: usize, r1: u64, r2: u64|
        b <= size && x <= size && y <= size && #[trigger] call_ensures(
            f,
            (b, x, xd[x as int], y, yd[y as int]),
            r1,
        ) && #[trigger] call_ensures(f, (b, x, xd[x as int], y, yd[y as int]), r2) ==> r1 == r2
}

/// Whether a two-input accumulator function keeps below the mass ceiling.
pub open spec fn fnp2_bounded<F: Fn(usize, usize, u64, usize, u64) -> u64>(
    f: F,
    size: int,
    xd: Seq<u64>,
    yd: Seq<u64>,
) -> bool {
    forall|b: usize, x: usize, y: usize, r: u64|
        b <= size && x <= size && y <= size && #[trigger] call_ensures(
            f,
            (b, x, xd[x as int], y, yd[y as int]),
            r,
        ) ==> r <= PROB_CAP
}

/// Whether a two-input accumulator function can return everywhere.
pub open spec fn fnp2_can<F: Fn(usize, usize, u64, usize, u64) -> u64>(
    f: F,
    size: int,
    xd: Seq<u64>,
    yd: Seq<u64>,
) -> bool {
    forall|b: usize, x: usize, y: usize|
        b <= size && x <= size && y <= size
            ==> #[trigger] call_ensures(
            f,
            (b, x, xd[x as int], y, yd[y as int]),
            fnp2_choose(f, b, x, xd[x as int], y, yd[y as int]),
        )
}

/// The mass that the pairs `(x, 0..n)` contribute to bucket `b` through a
/// two-input accumulator function.
pub open spec fn convp2_row<F: Fn(usize, usize, u64, usize, u64) -> u64>(
    f: F,
    px: u64,
    yd: Seq<u64>,
    b: int,
    x: int,
    n: int,
) -> int
    decreases n,
{
    if n <= 0 {
        0
    } else {
        convp2_row(f, px, yd, b, x, n - 1) + fnp2_choose(
            f,
            b as usize,
            x as usize,
            px,
            (n - 1) as usize,
            yd[n - 1],
        ) as int
    }
}

/// The mass that the pairs `[0, n) x [0, ny)` contribute to bucket `b`
/// through a two-input accumulator function.
pub open spec fn convp2_sum<F: Fn(usize, usize, u64, usize, u64) -> u64>(
    f: F,
    xd: Seq<u64>,
    yd: Seq<u64>,
    b: int,
    n: int,
    ny: int,
) -> int
    decreases n,
{
    if n <= 0 {
        0
    } else {
        convp2_sum(f, xd, yd, b, n - 1, ny) + convp2_row(f, xd[n - 1], yd, b, n - 1, ny)
    }
}

/// Every partial two-input accumulator row mass is non-negative.
pub proof fn lemma_convp2_row_nonneg<F: Fn(usize, usize, u64, usize, u64) -> u64>(
    f: F,
    px: u64,
    yd: Seq<u64>,
    b: int,
    x: int,
    n: int,
)
    ensures
        convp2_row(f, px, yd, b, x, n) >= 0,
    decreases n,
{
    if n > 0 {
        lemma_convp2_row_nonneg(f, px, yd, b, x, n - 1);
    }
}

/// Every partial two-input accumulator mass is non-negative.
pub proof fn lemma_convp2_sum_nonneg<F: Fn(usize, usize, u64, usize, u64) -> u64>(
    f: F,
    xd: Seq<u64>,
    yd: Seq<u64>,
    b: int,
    n: int,
    ny: int,
)
    ensures
        convp2_sum(f, xd, yd, b, n, ny) >= 0,
    decreases n,
{
    if n > 0 {
        lemma_convp2_sum_nonneg(f, xd, yd, b, n - 1, ny);
        lemma_convp2_row_nonneg(f, xd[n - 1], yd, b, n - 1, ny);
    }
}

/// A possible result of a three-input accumulator function.
pub open spec fn fnp3_choose<F: Fn(usize, usize, u64, usize, u64, usize, u64) -> u64>(
    f: F,
    b: usize,
    x: usize,
    px: u64,
    y: usize,
    py: u64,
    z: usize,
    pz: u64,
) -> u64 {
    choose|r: u64| #[trigger] call_ensures(f, (b, x, px, y, py, z, pz), r)
}

/// Whether a three-input accumulator function accepts every bucket and
/// triple of input values (the undefined buckets included).
pub open spec fn fnp3_req<F: Fn(usize, usize, u64, usize, u64, usize, u64) -> u64>(
    f: F,
    size: int,
    xd: Seq<u64>,
    yd: Seq<u64>,
    zd: Seq<u64>,
) -> bool {
    forall|b: usize, x: usize, y: usize, z: usize|
        b <= size && x <= size && y <= size && z <= size
            ==> #[trigger] call_requires(
            f,
            (b, x, xd[x as int], y, yd[y as int], z, zd[z as int]),
        )
}

/// Whether a three-input accumulator function is deterministic there.
pub open spec fn fnp3_det<F: Fn(usize, usize, u64, usize, u64, usize, u64) -> u64>(
    f: F,
    size: int,
    xd: Seq<u64>,
    yd: Seq<u64>,
    zd: Seq<u64>,
) -> bool {
    forall|b: usize, x: usize, y: usize, z: usize, r1: u64, r2: u64|
        b <= size && x <= size && y <= size && z <= size && #[trigger] call_ensures(
            f,
            (b, x, xd[x as int], y, yd[y as int], z, zd[z as int]),
            r1,
        ) && #[trigger] call_ensures(
            f,
            (b, x, xd[x as int], y, yd[y as int], z, zd[z as int]),
            r2,
        ) ==> r1 == r2
}

/// Whether a three-input accumulator function keeps below the mass
/// ceiling.
pub open spec fn fnp3_bounded<F: Fn(usize, usize, u64, usize, u64, usize, u64) -> u64>(
    f: F,
    size: int,
    xd: Seq<u64>,
    yd: Seq<u64>,
    zd: Seq<u64>,
) -> bool {
    forall|b: usize, x: usize, y: usize, z: usize, r: u64|
        b <= size && x <= size && y <= size && z <= size && #[trigger] call_ensures(
            f,
            (b, x, xd[x as int], y, yd[y as int], z, zd[z as int]),
            r,
        ) ==> r <= PROB_CAP
}

/// Whether a three-input accumulator function can return everywhere.
pub open spec fn fnp3_can<F: Fn(usize, usize, u64, usize, u64, usize, u64) -> u64>(
    f: F,
    size: int,
    xd: Seq<u64>,
    yd: Seq<u64>,
    zd: Seq<u64>,
) -> bool {
    forall|b: usize, x: usize, y: usize, z: usize|
        b <= size && x <= size && y <= size && z <= size
            ==> #[trigger] call_ensures(
            f,
            (b, x, xd[x as int], y, yd[y as int], z, zd[z as int]),
            fnp3_choose(f, b, x, xd[x as int], y, yd[y as int], z, zd[z as int]),
        )
}

/// The mass that the triples `(x, y, 0..n)` contribute to bucket `b`.
pub open spec fn convp3_cell<F: Fn(usize, usize, u64, usize, u64, usize, u64) -> u64>(
    f: F,
    px: u64,
    py: u64,
    zd: Seq<u64>,
    b: int,
    x: int,
    y: int,
    n: int,
) -> int
    decreases n,
{
    if n <= 0 {
        0
    } else {
        convp3_cell(f, px, py, zd, b, x, y, n - 1) + fnp3_choose(
            f,
            b as usize,
            x as usize,
            px,
            y as usize,
            py,
            (n - 1) as usize,
            zd[n - 1],
        ) as int
    }
}

/// The mass that the triples `(x, [0, n), [0, nz))` contribute to bucket
/// `b`.
pub open spec fn convp3_row<F: Fn(usize, usize, u64, usize, u64, usize, u64) -> u64>(
    f: F,
    px: u64,
    yd: Seq<u64>,
    zd: Seq<u64>,
    b: int,
    x: int,
    n: int,
    nz: int,
) -> int
    decreases n,
{
    if n <= 0 {
        0
    } else {
        convp3_row(f, px, yd, zd, b, x, n - 1, nz) + convp3_cell(
            f,
            px,
            yd[n - 1],
            zd,
            b,
            x,
            n - 1,
            nz,
        )
    }
}

/// The mass that the triples `[0, n) x [0, ny) x [0, nz)` contribute to
/// bucket `b`.
pub open spec fn convp3_sum<F: Fn(usize, usize, u64, usize, u64, usize, u64) -> u64>(
    f: F,
    xd: Seq<u64>,
    yd: Seq<u64>,
    zd: Seq<u64>,
    b: int,
    n: int,
    ny: int,
    nz: int,
) -> int
    decreases n,
{
    if n <= 0 {
        0
    } else {
        convp3_sum(f, xd, yd, zd, b, n - 1, ny, nz) + convp3_row(
            f,
            xd[n - 1],
            yd,
            zd,
            b,
            n - 1,
            ny,
            nz,
        )
    }
}

/// Every partial three-input accumulator line mass is non-negative.
pub proof fn lemma_convp3_cell_nonneg<F: Fn(usize, usize, u64, usize, u64, usize, u64) -> u64>(
    f: F,
    px: u64,
    py: u64,
    zd: Seq<u64>,
    b: int,
    x: int,
    y: int,
    n: int,
)
    ensures
        convp3_cell(f, px, py, zd, b, x, y, n) >= 0,
    decreases n,
{
    if n > 0 {
        lemma_convp3_cell_nonneg(f, px, py, zd, b, x, y, n - 1);
    }
}

/// Every partial three-input accumulator plane mass is non-negative.
pub proof fn lemma_convp3_row_nonneg<F: Fn(usize, usize, u64, usize, u64, usize, u64) -> u64>(
    f: F,
    px: u64,
    yd: Seq<u64>,
    zd: Seq<u64>,
    b: int,
    x: int,
    n: int,
    nz: int,
)
    ensures
        convp3_row(f, px, yd, zd, b, x, n, nz) >= 0,
    decreases n,
{
    if n > 0 {
        lemma_convp3_row_nonneg(f, px, yd, zd, b, x, n - 1, nz);
        lemma_convp3_cell_nonneg(f, px, yd[n - 1], zd, b, x, n - 1, nz);
    }
}

/// Every partial three-input accumulator mass is non-negative.
pub proof fn lemma_convp3_sum_nonneg<F: Fn(usize, usize, u64, usize, u64, usize, u64) -> u64>(
    f: F,
    xd: Seq<u64>,
    yd: Seq<u64>,
    zd: Seq<u64>,
    b: int,
    n: int,
    ny: int,
    nz: int,
)
    ensures
        convp3_sum(f, xd, yd, zd, b, n, ny, nz) >= 0,
    decreases n,
{
    if n > 0 {
        lemma_convp3_sum_nonneg(f, xd, yd, zd, b, n - 1, ny, nz);
        lemma_convp3_row_nonneg(f, xd[n - 1], yd, zd, b, n - 1, ny, nz);
    }
}

/// The mass that input values `0..n` contribute to bucket `b` through an
/// accumulator function.
pub open spec fn convp1_sum<F: Fn(usize, usize, u64) -> u64>(
    f: F,
    xd: Seq<u64>,
    b: int,
    n: int,
) -> int
    decreases n,
{
    if n <= 0 {
        0
    } else {
        convp1_sum(f, xd, b, n - 1) + fnp1_choose(f, b as usize, (n - 1) as usize, xd[n - 1]) as int
    }
}

/// Every partial accumulator mass is non-negative.
pub proof fn lemma_convp1_sum_nonneg<F: Fn(usize, usize, u64) -> u64>(
    f: F,
    xd: Seq<u64>,
    b: int,
    n: int,
)
    ensures
        convp1_sum(f, xd, b, n) >= 0,
    decreases n,
{
    if n > 0 {
        lemma_convp1_sum_nonneg(f, xd, b, n - 1);
    }
}

impl ComputedDistributions {
    /// The domain size; values are `0..size`, bucket `size` is "undefined".
    pub closed spec fn size_spec(&self) -> int {
        self.size as int
    }

    /// Buckets per distribution.
    pub open spec fn buckets(&self) -> int {
        self.size_spec() + 1
    }

    pub closed spec fn total_len(&self) -> int {
        self.values@.len() as int
    }

    /// How many distribution slots the store holds.
    pub open spec fn count_spec(&self) -> int {
        self.total_len() / self.buckets()
    }

    /// The distribution stored for `slot`, as a sequence of bucket masses.
    pub closed spec fn dist(&self, slot: int) -> Seq<u64> {
        self.values@.subrange(slot * self.buckets(), slot * self.buckets() + self.buckets())
    }

    /// Well-formedness: the flat array is a whole number of distributions
    /// and every mass respects the ceiling `PROB_CAP`.
    pub closed spec fn wf(&self) -> bool {
        &&& self.size < usize::MAX
        &&& self.values@.len() as int % self.buckets() == 0
        &&& forall|i: int| 0 <= i < self.values@.len() ==> self.values@[i] <= PROB_CAP
    }

    /// Shape facts every caller needs: a valid slot's flat region lies
    /// inside the array.
    proof fn lemma_slot_range(&self, slot: int)
        requires
            self.size < usize::MAX,
            self.values@.len() as int % self.buckets() == 0,
            0 <= slot < self.count_spec(),
        ensures
            0 <= slot * self.buckets(),
            slot * self.buckets() + self.buckets() <= self.total_len(),
            self.dist(slot).len() == self.buckets(),
    {
        let b = self.buckets();
        let len = self.total_len();
        let c = self.count_spec();
        vstd::arithmetic::div_mod::lemma_fundamental_div_mod(len, b);
        assert(len == b * c);
        vstd::arithmetic::mul::lemma_mul_nonnegative(slot, b);
        vstd::arithmetic::mul::lemma_mul_inequality(slot + 1, c, b);
        assert((slot + 1) * b == slot * b + b) by (nonlinear_arith);
        assert(c * b == b * c) by (nonlinear_arith);
    }

    /// Two distinct slots occupy disjoint flat regions.
    proof fn lemma_slots_disjoint(&self, s1: int, s2: int)
        requires
            0 <= s1 < s2,
        ensures
            s1 * self.buckets() + self.buckets() <= s2 * self.buckets(),
    {
        let b = self.buckets();
        vstd::arithmetic::mul::lemma_mul_inequality(s1 + 1, s2, b);
        assert((s1 + 1) * b == s1 * b + b) by (nonlinear_arith);
    }

    /// Well-formedness bounds that other modules rely on: the domain size
    /// is an ordinary machine integer.
    pub proof fn lemma_wf_size(&self)
        requires
            self.wf(),
        ensures
            0 <= self.size_spec() < usize::MAX,
    {
    }

    /// Every mass in a valid slot's distribution respects the ceiling.
    pub proof fn lemma_dist_bounded(&self, slot: int)
        requires
            self.wf(),
            0 <= slot < self.count_spec(),
        ensures
            self.dist(slot).len() == self.buckets(),
            forall|b: int| 0 <= b < self.dist(slot).len() ==> self.dist(slot)[b] <= PROB_CAP,
    {
        self.lemma_slot_range(slot);
        assert forall|b: int| 0 <= b < self.dist(slot).len()
            implies self.dist(slot)[b] <= PROB_CAP by {
            assert(self.dist(slot)[b] == self.values@[slot * self.buckets() + b]);
        }
    }

    /// The flat array fits in a `usize`, so every slot index does too.
    proof fn lemma_len_bound(&self)
        ensures
            self.values@.len() <= usize::MAX,
            0 <= self.count_spec() <= self.total_len(),
    {
        vstd::std_specs::vec::axiom_spec_len(&self.values);
        vstd::arithmetic::div_mod::lemma_div_pos_is_pos(self.total_len(), self.buckets());
        vstd::arithmetic::div_mod::lemma_div_nonincreasing(self.total_len(), self.buckets());
    }

    /// Index of the first bucket of `computed` in the flat array.
    fn computed_idx(&self, computed: usize) -> (r: usize)
        requires
            self.wf(),
            computed < self.count_spec(),
        ensures
            r == computed * self.buckets(),
            r + self.buckets() <= self.total_len(),
    {
        proof {
            self.lemma_len_bound();
            self.lemma_slot_range(computed as int);
        }
        computed * (self.size + 1)
    }

    /// A store of `count` all-zero distributions for domain size `size`.
    pub fn new(size: usize, count: usize) -> (r: Self)
        requires
            size < usize::MAX,
            (size + 1) * count <= usize::MAX,
        ensures
            r.wf(),
            r.size_spec() == size,
            r.count_spec() == count,
            forall|slot: int, b: int|
                0 <= slot < count && 0 <= b <= size ==> r.dist(slot)[b] == 0,
    {
        proof {
            vstd::arithmetic::mul::lemma_mul_nonnegative((size + 1) as int, count as int);
        }
        let total: usize = (size + 1) * count;
        let mut values: Vec<u64> = Vec::new();
        let mut i: usize = 0;
        while i < total
            invariant
                i <= total,
                values@.len() == i,
                forall|k: int| 0 <= k < i ==> values@[k] == 0,
            decreases total - i,
        {
            values.push(0);
            i += 1;
        }
        let r = ComputedDistributions { size, values };
        proof {
            let b = r.buckets();
            vstd::arithmetic::div_mod::lemma_mod_multiples_basic(count as int, b);
            assert(count * b == b * count) by (nonlinear_arith);
            vstd::arithmetic::div_mod::lemma_div_multiples_vanish(count as int, b);
            assert forall|slot: int, bb: int|
                0 <= slot < count && 0 <= bb <= size implies r.dist(slot)[bb] == 0 by {
                r.lemma_slot_range(slot);
            }
        }
        r
    }

    /// Writes one-hot distributions for a contiguous run of slots starting
    /// at `offset`, one per entry of `vals`; seeds the input slots of every
    /// example from concrete observed values.
    pub fn set_values(&mut self, offset: usize, vals: &Vec<usize>)
        requires
            old(self).wf(),
            offset + vals@.len() <= old(self).count_spec(),
        ensures
            final(self).wf(),
            final(self).size_spec() == old(self).size_spec(),
            final(self).count_spec() == old(self).count_spec(),
            final(self).total_len() == old(self).total_len(),
            forall|k: int|
                0 <= k < vals@.len()
                    ==> final(self).dist(offset + k)
                        == one_hot(old(self).size_spec(), vals@[k] as int),
            forall|s: int|
                0 <= s < final(self).count_spec() && !(offset <= s < offset + vals@.len())
                    ==> final(self).dist(s) == old(self).dist(s),
    {
        let ghost orig = *self;
        proof {
            self.lemma_len_bound();
        }
        let mut k: usize = 0;
        while k < vals.len()
            invariant
                self.size == orig.size,
                self.values@.len() == orig.values@.len(),
                self.total_len() <= usize::MAX,
                self.count_spec() == orig.count_spec(),
                self.wf(),
                orig.wf(),
                k <= vals@.len(),
                offset + vals@.len() <= orig.count_spec(),
                forall|kk: int|
                    0 <= kk < k
                        ==> self.dist(offset + kk) == one_hot(self.size_spec(), vals@[kk] as int),
                forall|i: int|
                    0 <= i < self.values@.len()
                        && !(offset * self.buckets() <= i < (offset + k) * self.buckets())
                        ==> self.values@[i] == orig.values@[i],
            decreases vals@.len() - k,
        {
            let slot = offset + k;
            let idx = self.computed_idx(slot);
            let v = vals[k];
            let ghost before = *self;
            let mut j: usize = 0;
            while j < self.size + 1
                invariant
                    self.size == before.size,
                    self.size < usize::MAX,
                    self.values@.len() == before.values@.len(),
                    self.wf(),
                    j <= self.buckets(),
                    idx == slot * self.buckets(),
                    idx + self.buckets() <= self.total_len(),
                    self.total_len() <= usize::MAX,
                    forall|i: int| idx <= i < idx + j
                        ==> self.values@[i] == (if i - idx == v { PROB_ONE } else { 0u64 }),
                    forall|i: int|
                        0 <= i < self.values@.len() && !(idx <= i < idx + j)
                            ==> self.values@[i] == before.values@[i],
                decreases self.size + 1 - j,
            {
                let m: u64 = if v == j { PROB_ONE } else { 0 };
                self.values.set(idx + j, m);
                j += 1;
            }
            proof {
                assert(self.dist(slot as int) =~= one_hot(self.size_spec(), v as int));
                assert((offset + (k + 1)) * self.buckets() == (offset + k) * self.buckets()
                    + self.buckets()) by (nonlinear_arith);
                assert(idx == (offset + k) * self.buckets());
                vstd::arithmetic::mul::lemma_mul_inequality(
                    offset as int, offset + k, self.buckets());
                assert forall|kk: int|
                    0 <= kk < k + 1 implies self.dist(offset + kk)
                        == one_hot(self.size_spec(), vals@[kk] as int) by {
                    if kk < k {
                        self.lemma_slot_range(offset + kk);
                        if offset + kk < slot {
                            self.lemma_slots_disjoint(offset + kk, slot as int);
                        }
                        assert(self.dist(offset + kk) =~= before.dist(offset + kk));
                    }
                }
            }
            k += 1;
        }
        proof {
            assert forall|s: int|
                0 <= s < self.count_spec() && !(offset <= s < offset + vals@.len())
                    implies self.dist(s) == orig.dist(s) by {
                self.lemma_slot_range(s);
                if s < offset {
                    self.lemma_slots_disjoint(s, offset as int);
                    vstd::arithmetic::mul::lemma_mul_inequality(
                        offset as int, offset + vals@.len(), self.buckets());
                } else {
                    vstd::arithmetic::mul::lemma_mul_inequality(
                        offset + vals@.len(), s, self.buckets());
                }
                assert(self.dist(s) =~= orig.dist(s));
            }
        }
    }

    /// Exact-length write of one distribution into `computed`.
    pub fn store(&mut self, computed: usize, distribution: &Vec<u64>)
        requires
            old(self).wf(),
            computed < old(self).count_spec(),
            distribution@.len() == old(self).buckets(),
            forall|i: int| 0 <= i < distribution@.len() ==> distribution@[i] <= PROB_CAP,
        ensures
            final(self).wf(),
            final(self).size_spec() == old(self).size_spec(),
            final(self).count_spec() == old(self).count_spec(),
            final(self).total_len() == old(self).total_len(),
            final(self).dist(computed as int) == distribution@,
            forall|s: int|
                0 <= s < final(self).count_spec() && s != computed
                    ==> final(self).dist(s) == old(self).dist(s),
    {
        let idx = self.computed_idx(computed);
        copy_into_slice(&mut self.values, idx, distribution);
        proof {
            assert forall|i: int| 0 <= i < distribution@.len()
                implies self.values@[idx + i] == distribution@[i] by {}
            assert forall|i: int| 0 <= i < self.values@.len()
                implies self.values@[i] <= PROB_CAP by {
                if idx <= i < idx + old(self).buckets() {
                    assert(self.values@[i] == distribution@[i - idx]);
                }
            }
            assert(self.dist(computed as int) =~= distribution@);
            assert forall|s: int|
                0 <= s < self.count_spec() && s != computed
                    implies self.dist(s) == old(self).dist(s) by {
                self.lemma_slot_range(s);
                if s < computed {
                    self.lemma_slots_disjoint(s, computed as int);
                } else {
                    self.lemma_slots_disjoint(computed as int, s);
                }
                assert(self.dist(s) =~= old(self).dist(s));
            }
        }
    }

    /// Exact-length read of the distribution stored for `computed`.
    pub fn read(&self, computed: usize) -> (r: &[u64])
        requires
            self.wf(),
            computed < self.count_spec(),
        ensures
            r@ == self.dist(computed as int),
    {
        let idx = self.computed_idx(computed);
        proof {
            self.lemma_len_bound();
        }
        slice_subrange(self.values.as_slice(), idx, idx + self.size + 1)
    }

    /// The most likely value of `computed` and its mass: the first bucket
    /// holding the maximal mass (ties go to the lowest value).
    pub fn read_likely(&self, computed: usize) -> (r: (usize, u64))
        requires
            self.wf(),
            computed < self.count_spec(),
        ensures
            r.0 == argmax_first(self.dist(computed as int), self.buckets()),
            r.0 < self.buckets(),
            r.1 == self.dist(computed as int)[r.0 as int],
            forall|j: int| 0 <= j < self.buckets() ==> self.dist(computed as int)[j] <= r.1,
            forall|j: int| 0 <= j < r.0 ==> self.dist(computed as int)[j] < r.1,
    {
        let d = self.read(computed);
        let ghost ds = self.dist(computed as int);
        proof {
            self.lemma_len_bound();
            self.lemma_slot_range(computed as int);
        }
        let mut best: usize = 0;
        let mut best_prob: u64 = 0;
        let n = d.len();
        let mut v: usize = 0;
        while v < n
            invariant
                n == ds.len(),
                d@ == ds,
                v <= n,
                n == self.buckets(),
                v == 0 ==> best == 0 && best_prob == 0,
                v >= 1 ==> best == argmax_first(ds, v as int) && best_prob == ds[best as int],
                best < n || (best == 0 && n >= 0),
                best <= v,
                forall|j: int| 0 <= j < v ==> ds[j] <= best_prob,
                forall|j: int| 0 <= j < best ==> ds[j] < best_prob,
            decreases n - v,
        {
            let pv = *vstd::slice::slice_index_get(d, v);
            if pv > best_prob {
                best_prob = pv;
                best = v;
            }
            proof {
                if v == 0 {
                    assert(argmax_first(ds, 1) == 0);
                    assert(best == 0);
                }
            }
            v += 1;
        }
        (best, best_prob)
    }

    /// Compacts the store through a relocation map: every slot mapped to
    /// `Some(d)` has its distribution copied to slot `d`.  Map entries only
    /// ever move a distribution to the same or a lower slot, and no two
    /// entries share a destination.
    pub fn relocate(&mut self, relocations: &Vec<Option<usize>>)
        requires
            old(self).wf(),
            relocations@.len() <= old(self).count_spec(),
            forall|j: int|
                0 <= j < relocations@.len() && relocations@[j] is Some
                    ==> relocations@[j]->0 <= j,
            forall|j1: int, j2: int|
                0 <= j1 < j2 < relocations@.len() && relocations@[j1] is Some
                    && relocations@[j2] is Some ==> relocations@[j1]->0 != relocations@[j2]->0,
        ensures
            final(self).wf(),
            final(self).size_spec() == old(self).size_spec(),
            final(self).count_spec() == old(self).count_spec(),
            forall|j: int|
                0 <= j < relocations@.len() && relocations@[j] is Some
                    ==> final(self).dist(relocations@[j]->0 as int) == old(self).dist(j),
            forall|s: int|
                0 <= s < final(self).count_spec() && (forall|j: int|
                    0 <= j < relocations@.len()
                        ==> !(relocations@[j] is Some && relocations@[j]->0 == s))
                    ==> final(self).dist(s) == old(self).dist(s),
    {
        let ghost orig = *self;
        proof {
            self.lemma_len_bound();
        }
        let n = relocations.len();
        let mut j: usize = 0;
        while j < n
            invariant
                self.size_spec() == orig.size_spec(),
                self.total_len() == orig.total_len(),
                self.count_spec() == orig.count_spec(),
                self.wf(),
                orig.wf(),
                j <= n,
                n == relocations@.len(),
                n <= orig.count_spec(),
                forall|jj: int|
                    0 <= jj < relocations@.len() && relocations@[jj] is Some
                        ==> relocations@[jj]->0 <= jj,
                forall|j1: int, j2: int|
                    0 <= j1 < j2 < relocations@.len() && relocations@[j1] is Some
                        && relocations@[j2] is Some
                        ==> relocations@[j1]->0 != relocations@[j2]->0,
                forall|jj: int|
                    0 <= jj < j && relocations@[jj] is Some
                        ==> self.dist(relocations@[jj]->0 as int) == orig.dist(jj),
                forall|s: int|
                    0 <= s < self.count_spec() && (forall|jj: int|
                        0 <= jj < j
                            ==> !(relocations@[jj] is Some && relocations@[jj]->0 == s))
                        ==> self.dist(s) == orig.dist(s),
            decreases n - j,
        {
            let entry = relocations[j];
            match entry {
                Some(d) => {
                    proof {
                        assert forall|jj: int| 0 <= jj < j
                            implies !(relocations@[jj] is Some
                                && relocations@[jj]->0 == j as int) by {}
                        assert(self.dist(j as int) == orig.dist(j as int));
                        self.lemma_slot_range(j as int);
                        assert forall|i: int|
                            0 <= i < self.dist(j as int).len()
                                implies self.dist(j as int)[i] <= PROB_CAP by {
                            assert(self.dist(j as int)[i]
                                == self.values@[j as int * self.buckets() + i]);
                        }
                    }
                    let tmp = slice_to_vec(self.read(j));
                    self.store(d, &tmp);
                }
                None => {}
            }
            j += 1;
        }
    }

    /// Writes into `target` the distribution of a constant value function:
    /// one full unit of mass on the (clamped) value `f` returns.
    pub fn compute_at_0<F: Fn() -> usize>(&mut self, target: usize, f: F)
        requires
            old(self).wf(),
            target < old(self).count_spec(),
            call_requires(f, ()),
            fn0_det(f),
        ensures
            final(self).wf(),
            final(self).size_spec() == old(self).size_spec(),
            final(self).count_spec() == old(self).count_spec(),
            final(self).total_len() == old(self).total_len(),
            forall|s: int|
                0 <= s < final(self).count_spec() && s != target
                    ==> final(self).dist(s) == old(self).dist(s),
            final(self).dist(target as int) == one_hot(
                old(self).size_spec(),
                clamp_bucket(fn0_val(f), old(self).size_spec()),
            ),
            fn0_can(f),
    {
        let ghost orig = *self;
        let idx_t = self.computed_idx(target);
        proof {
            self.lemma_len_bound();
        }
        let out0 = f();
        let out = if out0 >= self.size {
            self.size
        } else {
            out0
        };
        proof {
            assert(call_ensures(f, (), out0));
            assert(fn0_val(f) == out0 as int);
        }
        // Clear out all target values, placing the unit mass as we pass it.
        let mut t: usize = 0;
        while t < self.size + 1
            invariant
                self.size == orig.size,
                self.size < usize::MAX,
                self.total_len() == orig.total_len(),
                self.total_len() <= usize::MAX,
                self.wf(),
                t <= self.buckets(),
                out <= self.size,
                idx_t == target * self.buckets(),
                idx_t + self.buckets() <= self.total_len(),
                forall|i: int|
                    idx_t <= i < idx_t + t
                        ==> self.values@[i] == (if i - idx_t == out { PROB_ONE } else { 0u64 }),
                forall|i: int|
                    0 <= i < self.values@.len() && !(idx_t <= i < idx_t + t)
                        ==> self.values@[i] == orig.values@[i],
            decreases self.size + 1 - t,
        {
            let m: u64 = if t == out {
                PROB_ONE
            } else {
                0
            };
            self.values.set(idx_t + t, m);
            t += 1;
        }
        proof {
            assert(self.dist(target as int) =~= one_hot(
                orig.size_spec(),
                clamp_bucket(fn0_val(f), orig.size_spec()),
            ));
            assert forall|s: int|
                0 <= s < self.count_spec() && s != target
                    implies self.dist(s) == orig.dist(s) by {
                self.lemma_slot_range(s);
                if s < target {
                    self.lemma_slots_disjoint(s, target as int);
                } else {
                    self.lemma_slots_disjoint(target as int, s);
                }
                assert(self.dist(s) =~= orig.dist(s));
            }
        }
    }

    /// Propagates one input distribution through a unary value function:
    /// the target's undefined mass is the input's undefined mass, and each
    /// input value sends its mass to the bucket the value function picks
    /// (out-of-domain results fold into the undefined bucket).
    pub fn compute_at_1<F: Fn(usize) -> usize>(&mut self, target: usize, src: usize, f: F)
        requires
            old(self).wf(),
            target < old(self).count_spec(),
            src < old(self).count_spec(),
            src != target,
            fn1_req(f, old(self).size_spec()),
            fn1_det(f, old(self).size_spec()),
        ensures
            final(self).wf(),
            final(self).size_spec() == old(self).size_spec(),
            final(self).count_spec() == old(self).count_spec(),
            final(self).total_len() == old(self).total_len(),
            forall|s: int|
                0 <= s < final(self).count_spec() && s != target
                    ==> final(self).dist(s) == old(self).dist(s),
            final(self).dist(target as int) == conv1_dist(
                old(self).dist(src as int),
                fn1_bucket(f, old(self).size_spec()),
                old(self).size_spec(),
            ),
            fn1_can(f, old(self).size_spec()),
    {
        let ghost orig = *self;
        let ghost xd = orig.dist(src as int);
        let ghost size = orig.size_spec();
        let ghost g = fn1_bucket(f, size);
        let idx_t = self.computed_idx(target);
        let idx_x = self.computed_idx(src);
        proof {
            self.lemma_len_bound();
            self.lemma_slot_range(src as int);
            if src < target {
                self.lemma_slots_disjoint(src as int, target as int);
            } else {
                self.lemma_slots_disjoint(target as int, src as int);
            }
        }
        // Clear out all target values.
        let mut t: usize = 0;
        while t < self.size + 1
            invariant
                self.size == orig.size,
                self.size < usize::MAX,
                self.total_len() == orig.total_len(),
                self.total_len() <= usize::MAX,
                self.wf(),
                t <= self.buckets(),
                idx_t == target * self.buckets(),
                idx_t + self.buckets() <= self.total_len(),
                forall|i: int| idx_t <= i < idx_t + t ==> self.values@[i] == 0,
                forall|i: int|
                    0 <= i < self.values@.len() && !(idx_t <= i < idx_t + t)
                        ==> self.values@[i] == orig.values@[i],
            decreases self.size + 1 - t,
        {
            self.values.set(idx_t + t, 0);
            t += 1;
        }
        // If the input is undefined, the output is undefined.
        let ux = self.values[idx_x + self.size];
        let cur0 = self.values[idx_t + self.size];
        let uv = padd(cur0, ux);
        self.values.set(idx_t + self.size, uv);
        proof {
            assert(ux == xd[size]);
        }
        // For each input value, add its mass to the bucket f selects.
        let mut x: usize = 0;
        while x < self.size
            invariant
                self.size == orig.size,
                self.size < usize::MAX,
                self.total_len() == orig.total_len(),
                self.total_len() <= usize::MAX,
                self.wf(),
                orig.wf(),
                x <= size,
                size == self.size_spec(),
                idx_t == target * self.buckets(),
                idx_t + self.buckets() <= self.total_len(),
                idx_x == src * self.buckets(),
                idx_x + self.buckets() <= self.total_len(),
                idx_x + self.buckets() <= idx_t || idx_t + self.buckets() <= idx_x,
                xd == orig.dist(src as int),
                xd.len() == self.buckets(),
                fn1_req(f, size),
                fn1_det(f, size),
                g == fn1_bucket(f, size),
                forall|xx: usize|
                    xx < x ==> #[trigger] call_ensures(f, (xx,), fn1_choose(f, xx)),
                forall|i: int|
                    0 <= i < self.values@.len() && !(idx_t <= i < idx_t + self.buckets())
                        ==> self.values@[i] == orig.values@[i],
                forall|i: int|
                    idx_t <= i < idx_t + self.buckets()
                        ==> self.values@[i] as int == capped(
                        undef_base(i - idx_t, size, xd[size] as int) + conv1_sum(
                            xd,
                            g,
                            i - idx_t,
                            x as int,
                        ),
                    ),
            decreases self.size - x,
        {
            let px = self.values[idx_x + x];
            let out0 = f(x);
            let out = if out0 >= self.size {
                self.size
            } else {
                out0
            };
            proof {
                assert(call_ensures(f, (x,), out0));
                assert(fn1_choose(f, x) == out0);
                assert(g(x as int) == out as int);
                assert(px == xd[x as int]);
            }
            let cur = self.values[idx_t + out];
            let nv = padd(cur, px);
            self.values.set(idx_t + out, nv);
            proof {
                let ghost ub = xd[size] as int;
                assert forall|i: int|
                    idx_t <= i < idx_t + self.buckets()
                        implies self.values@[i] as int == capped(
                        undef_base(i - idx_t, size, ub) + conv1_sum(xd, g, i - idx_t, x + 1),
                    ) by {
                    let b = i - idx_t;
                    lemma_conv1_sum_nonneg(xd, g, b, x as int);
                    assert(conv1_sum(xd, g, b, x + 1) == conv1_sum(xd, g, b, x as int) + (
                        if g(x as int) == b { xd[x as int] as int } else { 0 }));
                    if i == idx_t + out {
                        crate::prob::lemma_capped_add(
                            undef_base(b, size, ub) + conv1_sum(xd, g, b, x as int),
                            px as int,
                        );
                    }
                }
            }
            x += 1;
        }
        proof {
            assert forall|b: int|
                0 <= b < self.buckets()
                    implies self.dist(target as int)[b] == conv1_dist(xd, g, size)[b] by {
                lemma_conv1_sum_nonneg(xd, g, b, size);
                assert(self.values@[idx_t + b] as int == capped(
                    undef_base(b, size, xd[size] as int) + conv1_sum(xd, g, b, size),
                ));
            }
            assert(self.dist(target as int) =~= conv1_dist(xd, g, size));
            assert forall|s: int|
                0 <= s < self.count_spec() && s != target
                    implies self.dist(s) == orig.dist(s) by {
                self.lemma_slot_range(s);
                if s < target {
                    self.lemma_slots_disjoint(s, target as int);
                } else {
                    self.lemma_slots_disjoint(target as int, s);
                }
                assert(self.dist(s) =~= orig.dist(s));
            }
        }
    }

    /// Propagates two input distributions through a binary value function.
    /// The target's undefined mass is the sum of the inputs' undefined
    /// masses (deliberately not renormalized); every pair of defined input
    /// values sends the product of its masses to the bucket the value
    /// function picks.
    pub fn compute_at_2<F: Fn(usize, usize) -> usize>(
        &mut self,
        target: usize,
        srcs: (usize, usize),
        f: F,
    )
        requires
            old(self).wf(),
            target < old(self).count_spec(),
            srcs.0 < old(self).count_spec(),
            srcs.1 < old(self).count_spec(),
            srcs.0 != target,
            srcs.1 != target,
            fn2_req(f, old(self).size_spec()),
            fn2_det(f, old(self).size_spec()),
        ensures
            final(self).wf(),
            final(self).size_spec() == old(self).size_spec(),
            final(self).count_spec() == old(self).count_spec(),
            final(self).total_len() == old(self).total_len(),
            forall|s: int|
                0 <= s < final(self).count_spec() && s != target
                    ==> final(self).dist(s) == old(self).dist(s),
            final(self).dist(target as int) == conv2_dist(
                old(self).dist(srcs.0 as int),
                old(self).dist(srcs.1 as int),
                fn2_bucket(f, old(self).size_spec()),
                old(self).size_spec(),
            ),
            fn2_can(f, old(self).size_spec()),
    {
        let ghost orig = *self;
        let ghost xd = orig.dist(srcs.0 as int);
        let ghost yd = orig.dist(srcs.1 as int);
        let ghost size = orig.size_spec();
        let ghost g = fn2_bucket(f, size);
        let idx_t = self.computed_idx(target);
        let idx_x = self.computed_idx(srcs.0);
        let idx_y = self.computed_idx(srcs.1);
        proof {
            self.lemma_len_bound();
            self.lemma_slot_range(srcs.0 as int);
            self.lemma_slot_range(srcs.1 as int);
            if srcs.0 < target {
                self.lemma_slots_disjoint(srcs.0 as int, target as int);
            } else {
                self.lemma_slots_disjoint(target as int, srcs.0 as int);
            }
            if srcs.1 < target {
                self.lemma_slots_disjoint(srcs.1 as int, target as int);
            } else {
                self.lemma_slots_disjoint(target as int, srcs.1 as int);
            }
        }
        // Clear out all target values.
        let mut t: usize = 0;
        while t < self.size + 1
            invariant
                self.size == orig.size,
                self.size < usize::MAX,
                self.total_len() == orig.total_len(),
                self.total_len() <= usize::MAX,
                self.wf(),
                t <= self.buckets(),
                idx_t == target * self.buckets(),
                idx_t + self.buckets() <= self.total_len(),
                forall|i: int| idx_t <= i < idx_t + t ==> self.values@[i] == 0,
                forall|i: int|
                    0 <= i < self.values@.len() && !(idx_t <= i < idx_t + t)
                        ==> self.values@[i] == orig.values@[i],
            decreases self.size + 1 - t,
        {
            self.values.set(idx_t + t, 0);
            t += 1;
        }
        // If any input is undefined, the output is undefined.
        let ux = self.values[idx_x + self.size];
        let uy = self.values[idx_y + self.size];
        let u1 = padd(self.values[idx_t + self.size], ux);
        self.values.set(idx_t + self.size, u1);
        let u2 = padd(self.values[idx_t + self.size], uy);
        self.values.set(idx_t + self.size, u2);
        proof {
            assert(ux == xd[size]);
            assert(uy == yd[size]);
            crate::prob::lemma_capped_add(ux as int, uy as int);
        }
        // For each combination of input values, add the product of their
        // masses to the bucket f selects.
        let mut x: usize = 0;
        while x < self.size
            invariant
                self.size == orig.size,
                self.size < usize::MAX,
                self.total_len() == orig.total_len(),
                self.total_len() <= usize::MAX,
                self.wf(),
                orig.wf(),
                x <= size,
                size == self.size_spec(),
                idx_t == target * self.buckets(),
                idx_t + self.buckets() <= self.total_len(),
                idx_x == srcs.0 * self.buckets(),
                idx_x + self.buckets() <= self.total_len(),
                idx_y == srcs.1 * self.buckets(),
                idx_y + self.buckets() <= self.total_len(),
                idx_x + self.buckets() <= idx_t || idx_t + self.buckets() <= idx_x,
                idx_y + self.buckets() <= idx_t || idx_t + self.buckets() <= idx_y,
                xd == orig.dist(srcs.0 as int),
                yd == orig.dist(srcs.1 as int),
                xd.len() == self.buckets(),
                yd.len() == self.buckets(),
                fn2_req(f, size),
                fn2_det(f, size),
                g == fn2_bucket(f, size),
                forall|xx: usize, yy: usize|
                    xx < x && yy < size
                        ==> #[trigger] call_ensures(f, (xx, yy), fn2_choose(f, xx, yy)),
                forall|i: int|
                    0 <= i < self.values@.len() && !(idx_t <= i < idx_t + self.buckets())
                        ==> self.values@[i] == orig.values@[i],
                forall|i: int|
                    idx_t <= i < idx_t + self.buckets()
                        ==> self.values@[i] as int == capped(
                        undef_base(i - idx_t, size, xd[size] + yd[size]) + conv2_sum(
                            xd,
                            yd,
                            g,
                            i - idx_t,
                            x as int,
                            size,
                        ),
                    ),
            decreases self.size - x,
        {
            let px = self.values[idx_x + x];
            proof {
                assert(px == xd[x as int]);
            }
            let mut y: usize = 0;
            while y < self.size
                invariant
                    self.size == orig.size,
                    self.size < usize::MAX,
                    self.total_len() == orig.total_len(),
                    self.total_len() <= usize::MAX,
                    self.wf(),
                    orig.wf(),
                    x < size,
                    y <= size,
                    size == self.size_spec(),
                    idx_t == target * self.buckets(),
                    idx_t + self.buckets() <= self.total_len(),
                    idx_x == srcs.0 * self.buckets(),
                    idx_x + self.buckets() <= self.total_len(),
                    idx_y == srcs.1 * self.buckets(),
                    idx_y + self.buckets() <= self.total_len(),
                    idx_x + self.buckets() <= idx_t || idx_t + self.buckets() <= idx_x,
                    idx_y + self.buckets() <= idx_t || idx_t + self.buckets() <= idx_y,
                    xd == orig.dist(srcs.0 as int),
                    yd == orig.dist(srcs.1 as int),
                    xd.len() == self.buckets(),
                    yd.len() == self.buckets(),
                    fn2_req(f, size),
                    fn2_det(f, size),
                    g == fn2_bucket(f, size),
                    px == xd[x as int],
                    forall|xx: usize, yy: usize|
                        xx < x && yy < size
                            ==> #[trigger] call_ensures(f, (xx, yy), fn2_choose(f, xx, yy)),
                    forall|yy: usize|
                        yy < y ==> #[trigger] call_ensures(f, (x, yy), fn2_choose(f, x, yy)),
                    forall|i: int|
                        0 <= i < self.values@.len() && !(idx_t <= i < idx_t + self.buckets())
                            ==> self.values@[i] == orig.values@[i],
                    forall|i: int|
                        idx_t <= i < idx_t + self.buckets()
                            ==> self.values@[i] as int == capped(
                            undef_base(i - idx_t, size, xd[size] + yd[size]) + conv2_sum(
                                xd,
                                yd,
                                g,
                                i - idx_t,
                                x as int,
                                size,
                            ) + conv2_row(px as int, yd, g, x as int, i - idx_t, y as int),
                        ),
                decreases self.size - y,
            {
                let py = self.values[idx_y + y];
                let out0 = f(x, y);
                let out = if out0 >= self.size {
                    self.size
                } else {
                    out0
                };
                proof {
                    assert(call_ensures(f, (x, y), out0));
                    assert(fn2_choose(f, x, y) == out0);
                    assert(g(x as int, y as int) == out as int);
                    assert(py == yd[y as int]);
                }
                let pr = pmul(px, py);
                let cur = self.values[idx_t + out];
                let nv = padd(cur, pr);
                self.values.set(idx_t + out, nv);
                proof {
                    let ghost ub = xd[size] + yd[size];
                    assert forall|i: int|
                        idx_t <= i < idx_t + self.buckets()
                            implies self.values@[i] as int == capped(
                            undef_base(i - idx_t, size, ub) + conv2_sum(
                                xd,
                                yd,
                                g,
                                i - idx_t,
                                x as int,
                                size,
                            ) + conv2_row(px as int, yd, g, x as int, i - idx_t, y + 1),
                        ) by {
                        let b = i - idx_t;
                        lemma_conv2_sum_nonneg(xd, yd, g, b, x as int, size);
                        lemma_conv2_row_nonneg(px as int, yd, g, x as int, b, y as int);
                        assert(conv2_row(px as int, yd, g, x as int, b, y + 1) == conv2_row(
                            px as int,
                            yd,
                            g,
                            x as int,
                            b,
                            y as int,
                        ) + (if g(x as int, y as int) == b {
                            pmul_spec(px as int, yd[y as int] as int)
                        } else {
                            0
                        }));
                        if i == idx_t + out {
                            crate::prob::lemma_capped_add(
                                undef_base(b, size, ub) + conv2_sum(
                                    xd,
                                    yd,
                                    g,
                                    b,
                                    x as int,
                                    size,
                                ) + conv2_row(px as int, yd, g, x as int, b, y as int),
                                pr as int,
                            );
                        }
                    }
                }
                y += 1;
            }
            x += 1;
        }
        proof {
            assert forall|b: int|
                0 <= b < self.buckets()
                    implies self.dist(target as int)[b] == conv2_dist(xd, yd, g, size)[b] by {
                lemma_conv2_sum_nonneg(xd, yd, g, b, size, size);
                assert(self.values@[idx_t + b] as int == capped(
                    undef_base(b, size, xd[size] + yd[size]) + conv2_sum(xd, yd, g, b, size, size),
                ));
            }
            assert(self.dist(target as int) =~= conv2_dist(xd, yd, g, size));
            assert forall|s: int|
                0 <= s < self.count_spec() && s != target
                    implies self.dist(s) == orig.dist(s) by {
                self.lemma_slot_range(s);
                if s < target {
                    self.lemma_slots_disjoint(s, target as int);
                } else {
                    self.lemma_slots_disjoint(target as int, s);
                }
                assert(self.dist(s) =~= orig.dist(s));
            }
        }
    }

    /// Propagates three input distributions through a ternary value
    /// function; undefined masses add, and every triple of defined input
    /// values sends the product of its masses to the bucket the value
    /// function picks.
    pub fn compute_at_3<F: Fn(usize, usize, usize) -> usize>(
        &mut self,
        target: usize,
        srcs: (usize, usize, usize),
        f: F,
    )
        requires
            old(self).wf(),
            target < old(self).count_spec(),
            srcs.0 < old(self).count_spec(),
            srcs.1 < old(self).count_spec(),
            srcs.2 < old(self).count_spec(),
            srcs.0 != target,
            srcs.1 != target,
            srcs.2 != target,
            fn3_req(f, old(self).size_spec()),
            fn3_det(f, old(self).size_spec()),
        ensures
            final(self).wf(),
            final(self).size_spec() == old(self).size_spec(),
            final(self).count_spec() == old(self).count_spec(),
            final(self).total_len() == old(self).total_len(),
            forall|s: int|
                0 <= s < final(self).count_spec() && s != target
                    ==> final(self).dist(s) == old(self).dist(s),
            final(self).dist(target as int) == conv3_dist(
                old(self).dist(srcs.0 as int),
                old(self).dist(srcs.1 as int),
                old(self).dist(srcs.2 as int),
                fn3_bucket(f, old(self).size_spec()),
                old(self).size_spec(),
            ),
            fn3_can(f, old(self).size_spec()),
    {
        let ghost orig = *self;
        let ghost xd = orig.dist(srcs.0 as int);
        let ghost yd = orig.dist(srcs.1 as int);
        let ghost zd = orig.dist(srcs.2 as int);
        let ghost size = orig.size_spec();
        let ghost g = fn3_bucket(f, size);
        let idx_t = self.computed_idx(target);
        let idx_x = self.computed_idx(srcs.0);
        let idx_y = self.computed_idx(srcs.1);
        let idx_z = self.computed_idx(srcs.2);
        proof {
            self.lemma_len_bound();
            self.lemma_slot_range(srcs.0 as int);
            self.lemma_slot_range(srcs.1 as int);
            self.lemma_slot_range(srcs.2 as int);
            if srcs.0 < target {
                self.lemma_slots_disjoint(srcs.0 as int, target as int);
            } else {
                self.lemma_slots_disjoint(target as int, srcs.0 as int);
            }
            if srcs.1 < target {
                self.lemma_slots_disjoint(srcs.1 as int, target as int);
            } else {
                self.lemma_slots_disjoint(target as int, srcs.1 as int);
            }
            if srcs.2 < target {
                self.lemma_slots_disjoint(srcs.2 as int, target as int);
            } else {
                self.lemma_slots_disjoint(target as int, srcs.2 as int);
            }
        }
        // Clear out all target values.
        let mut t: usize = 0;
        while t < self.size + 1
            invariant
                self.size == orig.size,
                self.size < usize::MAX,
                self.total_len() == orig.total_len(),
                self.total_len() <= usize::MAX,
                self.wf(),
                t <= self.buckets(),
                idx_t == target * self.buckets(),
                idx_t + self.buckets() <= self.total_len(),
                forall|i: int| idx_t <= i < idx_t + t ==> self.values@[i] == 0,
                forall|i: int|
                    0 <= i < self.values@.len() && !(idx_t <= i < idx_t + t)
                        ==> self.values@[i] == orig.values@[i],
            decreases self.size + 1 - t,
        {
            self.values.set(idx_t + t, 0);
            t += 1;
        }
        // If any input is undefined, the output is undefined.
        let ux = self.values[idx_x + self.size];
        let uy = self.values[idx_y + self.size];
        let uz = self.values[idx_z + self.size];
        let u1 = padd(self.values[idx_t + self.size], ux);
        self.values.set(idx_t + self.size, u1);
        let u2 = padd(self.values[idx_t + self.size], uy);
        self.values.set(idx_t + self.size, u2);
        let u3 = padd(self.values[idx_t + self.size], uz);
        self.values.set(idx_t + self.size, u3);
        proof {
            assert(ux == xd[size]);
            assert(uy == yd[size]);
            assert(uz == zd[size]);
            crate::prob::lemma_capped_add(ux as int, uy as int);
            crate::prob::lemma_capped_add(ux as int + uy as int, uz as int);
        }
        // For each combination of input values, add the product of their
        // masses to the bucket f selects.
        let mut x: usize = 0;
        while x < self.size
            invariant
                self.size == orig.size,
                self.size < usize::MAX,
                self.total_len() == orig.total_len(),
                self.total_len() <= usize::MAX,
                self.wf(),
                orig.wf(),
                x <= size,
                size == self.size_spec(),
                idx_t == target * self.buckets(),
                idx_t + self.buckets() <= self.total_len(),
                idx_x == srcs.0 * self.buckets(),
                idx_x + self.buckets() <= self.total_len(),
                idx_y == srcs.1 * self.buckets(),
                idx_y + self.buckets() <= self.total_len(),
                idx_z == srcs.2 * self.buckets(),
                idx_z + self.buckets() <= self.total_len(),
                idx_x + self.buckets() <= idx_t || idx_t + self.buckets() <= idx_x,
                idx_y + self.buckets() <= idx_t || idx_t + self.buckets() <= idx_y,
                idx_z + self.buckets() <= idx_t || idx_t + self.buckets() <= idx_z,
                xd == orig.dist(srcs.0 as int),
                yd == orig.dist(srcs.1 as int),
                zd == orig.dist(srcs.2 as int),
                xd.len() == self.buckets(),
                yd.len() == self.buckets(),
                zd.len() == self.buckets(),
                fn3_req(f, size),
                fn3_det(f, size),
                g == fn3_bucket(f, size),
                forall|xx: usize, yy: usize, zz: usize|
                    xx < x && yy < size && zz < size
                        ==> #[trigger] call_ensures(f, (xx, yy, zz), fn3_choose(f, xx, yy, zz)),
                forall|i: int|
                    0 <= i < self.values@.len() && !(idx_t <= i < idx_t + self.buckets())
                        ==> self.values@[i] == orig.values@[i],
                forall|i: int|
                    idx_t <= i < idx_t + self.buckets()
                        ==> self.values@[i] as int == capped(
                        undef_base(i - idx_t, size, xd[size] + yd[size] + zd[size]) + conv3_sum(
                            xd,
                            yd,
                            zd,
                            g,
                            i - idx_t,
                            x as int,
                            size,
                            size,
                        ),
                    ),
            decreases self.size - x,
        {
            let px = self.values[idx_x + x];
            proof {
                assert(px == xd[x as int]);
            }
            let mut y: usize = 0;
            while y < self.size
                invariant
                    self.size == orig.size,
                    self.size < usize::MAX,
                    self.total_len() == orig.total_len(),
                    self.total_len() <= usize::MAX,
                    self.wf(),
                    orig.wf(),
                    x < size,
                    y <= size,
                    size == self.size_spec(),
                    idx_t == target * self.buckets(),
                    idx_t + self.buckets() <= self.total_len(),
                    idx_x == srcs.0 * self.buckets(),
                    idx_x + self.buckets() <= self.total_len(),
                    idx_y == srcs.1 * self.buckets(),
                    idx_y + self.buckets() <= self.total_len(),
                    idx_z == srcs.2 * self.buckets(),
                    idx_z + self.buckets() <= self.total_len(),
                    idx_x + self.buckets() <= idx_t || idx_t + self.buckets() <= idx_x,
                    idx_y + self.buckets() <= idx_t || idx_t + self.buckets() <= idx_y,
                    idx_z + self.buckets() <= idx_t || idx_t + self.buckets() <= idx_z,
                    xd == orig.dist(srcs.0 as int),
                    yd == orig.dist(srcs.1 as int),
                    zd == orig.dist(srcs.2 as int),
                    xd.len() == self.buckets(),
                    yd.len() == self.buckets(),
                    zd.len() == self.buckets(),
                    fn3_req(f, size),
                    fn3_det(f, size),
                    g == fn3_bucket(f, size),
                    px == xd[x as int],
                    forall|xx: usize, yy: usize, zz: usize|
                        xx < x && yy < size && zz < size
                            ==> #[trigger] call_ensures(f, (xx, yy, zz), fn3_choose(f, xx, yy, zz)),
                    forall|yy: usize, zz: usize|
                        yy < y && zz < size
                            ==> #[trigger] call_ensures(f, (x, yy, zz), fn3_choose(f, x, yy, zz)),
                    forall|i: int|
                        0 <= i < self.values@.len() && !(idx_t <= i < idx_t + self.buckets())
                            ==> self.values@[i] == orig.values@[i],
                    forall|i: int|
                        idx_t <= i < idx_t + self.buckets()
                            ==> self.values@[i] as int == capped(
                            undef_base(i - idx_t, size, xd[size] + yd[size] + zd[size])
                                + conv3_sum(xd, yd, zd, g, i - idx_t, x as int, size, size)
                                + conv3_row(px as int, yd, zd, g, x as int, i - idx_t, y as int, size),
                        ),
                decreases self.size - y,
            {
                let py = self.values[idx_y + y];
                let pxy = pmul(px, py);
                proof {
                    assert(py == yd[y as int]);
                }
                let mut z: usize = 0;
                while z < self.size
                    invariant
                        self.size == orig.size,
                        self.size < usize::MAX,
                        self.total_len() == orig.total_len(),
                        self.total_len() <= usize::MAX,
                        self.wf(),
                        orig.wf(),
                        x < size,
                        y < size,
                        z <= size,
                        size == self.size_spec(),
                        idx_t == target * self.buckets(),
                        idx_t + self.buckets() <= self.total_len(),
                        idx_x == srcs.0 * self.buckets(),
                        idx_x + self.buckets() <= self.total_len(),
                        idx_y == srcs.1 * self.buckets(),
                        idx_y + self.buckets() <= self.total_len(),
                        idx_z == srcs.2 * self.buckets(),
                        idx_z + self.buckets() <= self.total_len(),
                        idx_x + self.buckets() <= idx_t || idx_t + self.buckets() <= idx_x,
                        idx_y + self.buckets() <= idx_t || idx_t + self.buckets() <= idx_y,
                        idx_z + self.buckets() <= idx_t || idx_t + self.buckets() <= idx_z,
                        xd == orig.dist(srcs.0 as int),
                        yd == orig.dist(srcs.1 as int),
                        zd == orig.dist(srcs.2 as int),
                        xd.len() == self.buckets(),
                        yd.len() == self.buckets(),
                        zd.len() == self.buckets(),
                        fn3_req(f, size),
                        fn3_det(f, size),
                        g == fn3_bucket(f, size),
                        px == xd[x as int],
                        py == yd[y as int],
                        pxy == pmul_spec(px as int, py as int),
                        pxy <= PROB_CAP,
                        forall|xx: usize, yy: usize, zz: usize|
                            xx < x && yy < size && zz < size
                                ==> #[trigger] call_ensures(
                                f,
                                (xx, yy, zz),
                                fn3_choose(f, xx, yy, zz),
                            ),
                        forall|yy: usize, zz: usize|
                            yy < y && zz < size
                                ==> #[trigger] call_ensures(f, (x, yy, zz), fn3_choose(f, x, yy, zz)),
                        forall|zz: usize|
                            zz < z ==> #[trigger] call_ensures(f, (x, y, zz), fn3_choose(f, x, y, zz)),
                        forall|i: int|
                            idx_t <= i < idx_t + self.buckets()
                                ==> self.values@[i] as int == capped(
                                undef_base(i - idx_t, size, xd[size] + yd[size] + zd[size])
                                    + conv3_sum(xd, yd, zd, g, i - idx_t, x as int, size, size)
                                    + conv3_row(
                                    px as int,
                                    yd,
                                    zd,
                                    g,
                                    x as int,
                                    i - idx_t,
                                    y as int,
                                    size,
                                ) + conv3_cell(pxy as int, zd, g, x as int, y as int, i - idx_t, z as int),
                            ),
                        forall|i: int|
                            0 <= i < self.values@.len() && !(idx_t <= i < idx_t + self.buckets())
                                ==> self.values@[i] == orig.values@[i],
                    decreases self.size - z,
                {
                    let pz = self.values[idx_z + z];
                    let out0 = f(x, y, z);
                    let out = if out0 >= self.size {
                        self.size
                    } else {
                        out0
                    };
                    proof {
                        assert(call_ensures(f, (x, y, z), out0));
                        assert(fn3_choose(f, x, y, z) == out0);
                        assert(g(x as int, y as int, z as int) == out as int);
                        assert(pz == zd[z as int]);
                    }
                    let pr = pmul(pxy, pz);
                    let cur = self.values[idx_t + out];
                    let nv = padd(cur, pr);
                    self.values.set(idx_t + out, nv);
                    proof {
                        let ghost ub = xd[size] + yd[size] + zd[size];
                        assert forall|i: int|
                            idx_t <= i < idx_t + self.buckets()
                                implies self.values@[i] as int == capped(
                                undef_base(i - idx_t, size, ub)
                                    + conv3_sum(xd, yd, zd, g, i - idx_t, x as int, size, size)
                                    + conv3_row(
                                    px as int,
                                    yd,
                                    zd,
                                    g,
                                    x as int,
                                    i - idx_t,
                                    y as int,
                                    size,
                                ) + conv3_cell(pxy as int, zd, g, x as int, y as int, i - idx_t, z + 1),
                            ) by {
                            let b = i - idx_t;
                            lemma_conv3_sum_nonneg(xd, yd, zd, g, b, x as int, size, size);
                            lemma_conv3_row_nonneg(px as int, yd, zd, g, x as int, b, y as int, size);
                            lemma_conv3_cell_nonneg(pxy as int, zd, g, x as int, y as int, b, z as int);
                            assert(conv3_cell(pxy as int, zd, g, x as int, y as int, b, z + 1)
                                == conv3_cell(pxy as int, zd, g, x as int, y as int, b, z as int) + (
                                if g(x as int, y as int, z as int) == b {
                                    pmul_spec(pxy as int, zd[z as int] as int)
                                } else {
                                    0
                                }));
                            if i == idx_t + out {
                                crate::prob::lemma_capped_add(
                                    undef_base(b, size, ub)
                                        + conv3_sum(xd, yd, zd, g, b, x as int, size, size)
                                        + conv3_row(
                                        px as int,
                                        yd,
                                        zd,
                                        g,
                                        x as int,
                                        b,
                                        y as int,
                                        size,
                                    ) + conv3_cell(pxy as int, zd, g, x as int, y as int, b, z as int),
                                    pr as int,
                                );
                            }
                        }
                    }
                    z += 1;
                }
                proof {
                    assert forall|i: int|
                        idx_t <= i < idx_t + self.buckets()
                            implies self.values@[i] as int == capped(
                            undef_base(i - idx_t, size, xd[size] + yd[size] + zd[size])
                                + conv3_sum(xd, yd, zd, g, i - idx_t, x as int, size, size)
                                + conv3_row(px as int, yd, zd, g, x as int, i - idx_t, y + 1, size),
                        ) by {
                        let b = i - idx_t;
                        assert(conv3_row(px as int, yd, zd, g, x as int, b, y + 1, size)
                            == conv3_row(px as int, yd, zd, g, x as int, b, y as int, size)
                            + conv3_cell(
                            pmul_spec(px as int, yd[y as int] as int),
                            zd,
                            g,
                            x as int,
                            y as int,
                            b,
                            size,
                        ));
                    }
                }
                y += 1;
            }
            x += 1;
        }
        proof {
            assert forall|b: int|
                0 <= b < self.buckets()
                    implies self.dist(target as int)[b] == conv3_dist(xd, yd, zd, g, size)[b] by {
                lemma_conv3_sum_nonneg(xd, yd, zd, g, b, size, size, size);
                assert(self.values@[idx_t + b] as int == capped(
                    undef_base(b, size, xd[size] + yd[size] + zd[size]) + conv3_sum(
                        xd,
                        yd,
                        zd,
                        g,
                        b,
                        size,
                        size,
                        size,
                    ),
                ));
            }
            assert(self.dist(target as int) =~= conv3_dist(xd, yd, zd, g, size));
            assert forall|s: int|
                0 <= s < self.count_spec() && s != target
                    implies self.dist(s) == orig.dist(s) by {
                self.lemma_slot_range(s);
                if s < target {
                    self.lemma_slots_disjoint(s, target as int);
                } else {
                    self.lemma_slots_disjoint(target as int, s);
                }
                assert(self.dist(s) =~= orig.dist(s));
            }
        }
    }

    /// Writes into `target` the distribution a caller-supplied bucket-mass
    /// function describes: bucket `b` gets exactly `f(b)`.  This is the
    /// zero-input member of the probabilistic variant family, for operators
    /// whose output ignores every input.
    pub fn compute_at_0_prob<F: Fn(usize) -> u64>(&mut self, target: usize, f: F)
        requires
            old(self).wf(),
            target < old(self).count_spec(),
            fnp0_req(f, old(self).size_spec()),
            fnp0_det(f, old(self).size_spec()),
            fnp0_bounded(f, old(self).size_spec()),
        ensures
            final(self).wf(),
            final(self).size_spec() == old(self).size_spec(),
            final(self).count_spec() == old(self).count_spec(),
            final(self).total_len() == old(self).total_len(),
            forall|s: int|
                0 <= s < final(self).count_spec() && s != target
                    ==> final(self).dist(s) == old(self).dist(s),
            final(self).dist(target as int) == Seq::new(
                (old(self).size_spec() + 1) as nat,
                |b: int| fnp0_choose(f, b as usize),
            ),
            fnp0_can(f, old(self).size_spec()),
    {
        let ghost orig = *self;
        let ghost size = orig.size_spec();
        let idx_t = self.computed_idx(target);
        proof {
            self.lemma_len_bound();
        }
        let mut b: usize = 0;
        while b < self.size + 1
            invariant
                self.size == orig.size,
                self.size < usize::MAX,
                self.total_len() == orig.total_len(),
                self.total_len() <= usize::MAX,
                self.wf(),
                b <= self.buckets(),
                size == self.size_spec(),
                idx_t == target * self.buckets(),
                idx_t + self.buckets() <= self.total_len(),
                fnp0_req(f, size),
                fnp0_det(f, size),
                fnp0_bounded(f, size),
                forall|bb: usize| bb < b ==> #[trigger] call_ensures(f, (bb,), fnp0_choose(f, bb)),
                forall|i: int|
                    idx_t <= i < idx_t + b
                        ==> self.values@[i] == fnp0_choose(f, (i - idx_t) as usize),
                forall|i: int|
                    0 <= i < self.values@.len() && !(idx_t <= i < idx_t + b)
                        ==> self.values@[i] == orig.values@[i],
            decreases self.size + 1 - b,
        {
            let m = f(b);
            proof {
                assert(call_ensures(f, (b,), m));
                assert(fnp0_choose(f, b) == m);
            }
            self.values.set(idx_t + b, m);
            b += 1;
        }
        proof {
            assert(self.dist(target as int) =~= Seq::new(
                (size + 1) as nat,
                |bb: int| fnp0_choose(f, bb as usize),
            ));
            assert forall|s: int|
                0 <= s < self.count_spec() && s != target
                    implies self.dist(s) == orig.dist(s) by {
                self.lemma_slot_range(s);
                if s < target {
                    self.lemma_slots_disjoint(s, target as int);
                } else {
                    self.lemma_slots_disjoint(target as int, s);
                }
                assert(self.dist(s) =~= orig.dist(s));
            }
        }
    }

    /// Propagates one input distribution through a caller-supplied
    /// accumulator function that sees each input value's bucket index and
    /// mass directly (the undefined bucket included): bucket `b` collects
    /// `f(b, x, px)` over every input bucket `x`.
    pub fn compute_at_1_prob<F: Fn(usize, usize, u64) -> u64>(
        &mut self,
        target: usize,
        src: usize,
        f: F,
    )
        requires
            old(self).wf(),
            target < old(self).count_spec(),
            src < old(self).count_spec(),
            src != target,
            fnp1_req(f, old(self).size_spec(), old(self).dist(src as int)),
            fnp1_det(f, old(self).size_spec(), old(self).dist(src as int)),
            fnp1_bounded(f, old(self).size_spec(), old(self).dist(src as int)),
        ensures
            final(self).wf(),
            final(self).size_spec() == old(self).size_spec(),
            final(self).count_spec() == old(self).count_spec(),
            final(self).total_len() == old(self).total_len(),
            forall|s: int|
                0 <= s < final(self).count_spec() && s != target
                    ==> final(self).dist(s) == old(self).dist(s),
            final(self).dist(target as int) == Seq::new(
                (old(self).size_spec() + 1) as nat,
                |b: int| capped(
                    convp1_sum(f, old(self).dist(src as int), b, old(self).size_spec() + 1),
                ) as u64,
            ),
            fnp1_can(f, old(self).size_spec(), old(self).dist(src as int)),
    {
        let ghost orig = *self;
        let ghost xd = orig.dist(src as int);
        let ghost size = orig.size_spec();
        let idx_t = self.computed_idx(target);
        let idx_x = self.computed_idx(src);
        proof {
            self.lemma_len_bound();
            self.lemma_slot_range(src as int);
            if src < target {
                self.lemma_slots_disjoint(src as int, target as int);
            } else {
                self.lemma_slots_disjoint(target as int, src as int);
            }
        }
        // Clear out all target values.
        let mut t: usize = 0;
        while t < self.size + 1
            invariant
                self.size == orig.size,
                self.size < usize::MAX,
                self.total_len() == orig.total_len(),
                self.total_len() <= usize::MAX,
                self.wf(),
                t <= self.buckets(),
                idx_t == target * self.buckets(),
                idx_t + self.buckets() <= self.total_len(),
                forall|i: int| idx_t <= i < idx_t + t ==> self.values@[i] == 0,
                forall|i: int|
                    0 <= i < self.values@.len() && !(idx_t <= i < idx_t + t)
                        ==> self.values@[i] == orig.values@[i],
            decreases self.size + 1 - t,
        {
            self.values.set(idx_t + t, 0);
            t += 1;
        }
        // For every input bucket, let f place its contribution everywhere.
        let mut x: usize = 0;
        while x < self.size + 1
            invariant
                self.size == orig.size,
                self.size < usize::MAX,
                self.total_len() == orig.total_len(),
                self.total_len() <= usize::MAX,
                self.wf(),
                orig.wf(),
                x <= self.buckets(),
                size == self.size_spec(),
                idx_t == target * self.buckets(),
                idx_t + self.buckets() <= self.total_len(),
                idx_x == src * self.buckets(),
                idx_x + self.buckets() <= self.total_len(),
                idx_x + self.buckets() <= idx_t || idx_t + self.buckets() <= idx_x,
                xd == orig.dist(src as int),
                xd.len() == self.buckets(),
                fnp1_req(f, size, xd),
                fnp1_det(f, size, xd),
                fnp1_bounded(f, size, xd),
                forall|bb: usize, xx: usize|
                    bb <= size && xx < x
                        ==> #[trigger] call_ensures(
                        f,
                        (bb, xx, xd[xx as int]),
                        fnp1_choose(f, bb, xx, xd[xx as int]),
                    ),
                forall|i: int|
                    0 <= i < self.values@.len() && !(idx_t <= i < idx_t + self.buckets())
                        ==> self.values@[i] == orig.values@[i],
                forall|i: int|
                    idx_t <= i < idx_t + self.buckets()
                        ==> self.values@[i] as int == capped(
                        convp1_sum(f, xd, i - idx_t, x as int),
                    ),
            decreases self.size + 1 - x,
        {
            let px = self.values[idx_x + x];
            proof {
                assert(px == xd[x as int]);
            }
            let mut b: usize = 0;
            while b < self.size + 1
                invariant
                    self.size == orig.size,
                    self.size < usize::MAX,
                    self.total_len() == orig.total_len(),
                    self.total_len() <= usize::MAX,
                    self.wf(),
                    orig.wf(),
                    x < self.buckets(),
                    b <= self.buckets(),
                    size == self.size_spec(),
                    idx_t == target * self.buckets(),
                    idx_t + self.buckets() <= self.total_len(),
                    idx_x == src * self.buckets(),
                    idx_x + self.buckets() <= self.total_len(),
                    idx_x + self.buckets() <= idx_t || idx_t + self.buckets() <= idx_x,
                    xd == orig.dist(src as int),
                    xd.len() == self.buckets(),
                    fnp1_req(f, size, xd),
                    fnp1_det(f, size, xd),
                    fnp1_bounded(f, size, xd),
                    px == xd[x as int],
                    forall|bb: usize, xx: usize|
                        bb <= size && xx < x
                            ==> #[trigger] call_ensures(
                            f,
                            (bb, xx, xd[xx as int]),
                            fnp1_choose(f, bb, xx, xd[xx as int]),
                        ),
                    forall|bb: usize|
                        bb < b
                            ==> #[trigger] call_ensures(
                            f,
                            (bb, x, xd[x as int]),
                            fnp1_choose(f, bb, x, xd[x as int]),
                        ),
                    forall|i: int|
                        0 <= i < self.values@.len() && !(idx_t <= i < idx_t + self.buckets())
                            ==> self.values@[i] == orig.values@[i],
                    forall|i: int|
                        idx_t <= i < idx_t + b
                            ==> self.values@[i] as int == capped(
                            convp1_sum(f, xd, i - idx_t, x + 1),
                        ),
                    forall|i: int|
                        idx_t + b <= i < idx_t + self.buckets()
                            ==> self.values@[i] as int == capped(
                            convp1_sum(f, xd, i - idx_t, x as int),
                        ),
                decreases self.size + 1 - b,
            {
                let m = f(b, x, px);
                proof {
                    assert(call_ensures(f, (b, x, xd[x as int]), m));
                    assert(fnp1_choose(f, b, x, xd[x as int]) == m);
                    assert(m <= PROB_CAP);
                    lemma_convp1_sum_nonneg(f, xd, b as int, x as int);
                    crate::prob::lemma_capped_add(
                        convp1_sum(f, xd, b as int, x as int),
                        m as int,
                    );
                }
                let cur = self.values[idx_t + b];
                let nv = padd(cur, m);
                self.values.set(idx_t + b, nv);
                b += 1;
            }
            x += 1;
        }
        proof {
            assert forall|b: int|
                0 <= b < self.buckets()
                    implies self.dist(target as int)[b] as int == capped(
                    convp1_sum(f, xd, b, size + 1),
                ) by {
                lemma_convp1_sum_nonneg(f, xd, b, size + 1);
            }
            assert(self.dist(target as int) =~= Seq::new(
                (size + 1) as nat,
                |b: int| capped(convp1_sum(f, xd, b, size + 1)) as u64,
            ));
            assert forall|s: int|
                0 <= s < self.count_spec() && s != target
                    implies self.dist(s) == orig.dist(s) by {
                self.lemma_slot_range(s);
                if s < target {
                    self.lemma_slots_disjoint(s, target as int);
                } else {
                    self.lemma_slots_disjoint(target as int, s);
                }
                assert(self.dist(s) =~= orig.dist(s));
            }
        }
    }

    /// Propagates two input distributions through a caller-supplied
    /// accumulator function with direct read access to both inputs'
    /// bucket masses (the undefined buckets included): bucket `b` collects
    /// `f(b, x, px, y, py)` over every pair of input buckets.
    pub fn compute_at_2_prob<F: Fn(usize, usize, u64, usize, u64) -> u64>(
        &mut self,
        target: usize,
        srcs: (usize, usize),
        f: F,
    )
        requires
            old(self).wf(),
            target < old(self).count_spec(),
            srcs.0 < old(self).count_spec(),
            srcs.1 < old(self).count_spec(),
            srcs.0 != target,
            srcs.1 != target,
            fnp2_req(
                f,
                old(self).size_spec(),
                old(self).dist(srcs.0 as int),
                old(self).dist(srcs.1 as int),
            ),
            fnp2_det(
                f,
                old(self).size_spec(),
                old(self).dist(srcs.0 as int),
                old(self).dist(srcs.1 as int),
            ),
            fnp2_bounded(
                f,
                old(self).size_spec(),
                old(self).dist(srcs.0 as int),
                old(self).dist(srcs.1 as int),
            ),
        ensures
            final(self).wf(),
            final(self).size_spec() == old(self).size_spec(),
            final(self).count_spec() == old(self).count_spec(),
            final(self).total_len() == old(self).total_len(),
            forall|s: int|
                0 <= s < final(self).count_spec() && s != target
                    ==> final(self).dist(s) == old(self).dist(s),
            final(self).dist(target as int) == Seq::new(
                (old(self).size_spec() + 1) as nat,
                |b: int| capped(
                    convp2_sum(
                        f,
                        old(self).dist(srcs.0 as int),
                        old(self).dist(srcs.1 as int),
                        b,
                        old(self).size_spec() + 1,
                        old(self).size_spec() + 1,
                    ),
                ) as u64,
            ),
            fnp2_can(
                f,
                old(self).size_spec(),
                old(self).dist(srcs.0 as int),
                old(self).dist(srcs.1 as int),
            ),
    {
        let ghost orig = *self;
        let ghost xd = orig.dist(srcs.0 as int);
        let ghost yd = orig.dist(srcs.1 as int);
        let ghost size = orig.size_spec();
        let idx_t = self.computed_idx(target);
        let idx_x = self.computed_idx(srcs.0);
        let idx_y = self.computed_idx(srcs.1);
        proof {
            self.lemma_len_bound();
            self.lemma_slot_range(srcs.0 as int);
            self.lemma_slot_range(srcs.1 as int);
            if srcs.0 < target {
                self.lemma_slots_disjoint(srcs.0 as int, target as int);
            } else {
                self.lemma_slots_disjoint(target as int, srcs.0 as int);
            }
            if srcs.1 < target {
                self.lemma_slots_disjoint(srcs.1 as int, target as int);
            } else {
                self.lemma_slots_disjoint(target as int, srcs.1 as int);
            }
        }
        // Clear out all target values.
        let mut t: usize = 0;
        while t < self.size + 1
            invariant
                self.size == orig.size,
                self.size < usize::MAX,
                self.total_len() == orig.total_len(),
                self.total_len() <= usize::MAX,
                self.wf(),
                t <= self.buckets(),
                idx_t == target * self.buckets(),
                idx_t + self.buckets() <= self.total_len(),
                forall|i: int| idx_t <= i < idx_t + t ==> self.values@[i] == 0,
                forall|i: int|
                    0 <= i < self.values@.len() && !(idx_t <= i < idx_t + t)
                        ==> self.values@[i] == orig.values@[i],
            decreases self.size + 1 - t,
        {
            self.values.set(idx_t + t, 0);
            t += 1;
        }
        // For every pair of input buckets, let f place its contribution
        // everywhere.
        let mut x: usize = 0;
        while x < self.size + 1
            invariant
                self.size == orig.size,
                self.size < usize::MAX,
                self.total_len() == orig.total_len(),
                self.total_len() <= usize::MAX,
                self.wf(),
                orig.wf(),
                x <= self.buckets(),
                size == self.size_spec(),
                idx_t == target * self.buckets(),
                idx_t + self.buckets() <= self.total_len(),
                idx_x == srcs.0 * self.buckets(),
                idx_x + self.buckets() <= self.total_len(),
                idx_y == srcs.1 * self.buckets(),
                idx_y + self.buckets() <= self.total_len(),
                idx_x + self.buckets() <= idx_t || idx_t + self.buckets() <= idx_x,
                idx_y + self.buckets() <= idx_t || idx_t + self.buckets() <= idx_y,
                xd == orig.dist(srcs.0 as int),
                yd == orig.dist(srcs.1 as int),
                xd.len() == self.buckets(),
                yd.len() == self.buckets(),
                fnp2_req(f, size, xd, yd),
                fnp2_det(f, size, xd, yd),
                fnp2_bounded(f, size, xd, yd),
                forall|bb: usize, xx: usize, yy: usize|
                    bb <= size && xx < x && yy <= size
                        ==> #[trigger] call_ensures(
                        f,
                        (bb, xx, xd[xx as int], yy, yd[yy as int]),
                        fnp2_choose(f, bb, xx, xd[xx as int], yy, yd[yy as int]),
                    ),
                forall|i: int|
                    0 <= i < self.values@.len() && !(idx_t <= i < idx_t + self.buckets())
                        ==> self.values@[i] == orig.values@[i],
                forall|i: int|
                    idx_t <= i < idx_t + self.buckets()
                        ==> self.values@[i] as int == capped(
                        convp2_sum(f, xd, yd, i - idx_t, x as int, size + 1),
                    ),
            decreases self.size + 1 - x,
        {
            let px = self.values[idx_x + x];
            proof {
                assert(px == xd[x as int]);
            }
            let mut y: usize = 0;
            while y < self.size + 1
                invariant
                    self.size == orig.size,
                    self.size < usize::MAX,
                    self.total_len() == orig.total_len(),
                    self.total_len() <= usize::MAX,
                    self.wf(),
                    orig.wf(),
                    x < self.buckets(),
                    y <= self.buckets(),
                    size == self.size_spec(),
                    idx_t == target * self.buckets(),
                    idx_t + self.buckets() <= self.total_len(),
                    idx_x == srcs.0 * self.buckets(),
                    idx_x + self.buckets() <= self.total_len(),
                    idx_y == srcs.1 * self.buckets(),
                    idx_y + self.buckets() <= self.total_len(),
                    idx_x + self.buckets() <= idx_t || idx_t + self.buckets() <= idx_x,
                    idx_y + self.buckets() <= idx_t || idx_t + self.buckets() <= idx_y,
                    xd == orig.dist(srcs.0 as int),
                    yd == orig.dist(srcs.1 as int),
                    xd.len() == self.buckets(),
                    yd.len() == self.buckets(),
                    fnp2_req(f, size, xd, yd),
                    fnp2_det(f, size, xd, yd),
                    fnp2_bounded(f, size, xd, yd),
                    px == xd[x as int],
                    forall|bb: usize, xx: usize, yy: usize|
                        bb <= size && xx < x && yy <= size
                            ==> #[trigger] call_ensures(
                            f,
                            (bb, xx, xd[xx as int], yy, yd[yy as int]),
                            fnp2_choose(f, bb, xx, xd[xx as int], yy, yd[yy as int]),
                        ),
                    forall|bb: usize, yy: usize|
                        bb <= size && yy < y
                            ==> #[trigger] call_ensures(
                            f,
                            (bb, x, xd[x as int], yy, yd[yy as int]),
                            fnp2_choose(f, bb, x, xd[x as int], yy, yd[yy as int]),
                        ),
                    forall|i: int|
                        0 <= i < self.values@.len() && !(idx_t <= i < idx_t + self.buckets())
                            ==> self.values@[i] == orig.values@[i],
                    forall|i: int|
                        idx_t <= i < idx_t + self.buckets()
                            ==> self.values@[i] as int == capped(
                            convp2_sum(f, xd, yd, i - idx_t, x as int, size + 1) + convp2_row(
                                f,
                                px,
                                yd,
                                i - idx_t,
                                x as int,
                                y as int,
                            ),
                        ),
                decreases self.size + 1 - y,
            {
                let py = self.values[idx_y + y];
                proof {
                    assert(py == yd[y as int]);
                }
                let mut b: usize = 0;
                while b < self.size + 1
                    invariant
                        self.size == orig.size,
                        self.size < usize::MAX,
                        self.total_len() == orig.total_len(),
                        self.total_len() <= usize::MAX,
                        self.wf(),
                        orig.wf(),
                        x < self.buckets(),
                        y < self.buckets(),
                        b <= self.buckets(),
                        size == self.size_spec(),
                        idx_t == target * self.buckets(),
                        idx_t + self.buckets() <= self.total_len(),
                        idx_x == srcs.0 * self.buckets(),
                        idx_x + self.buckets() <= self.total_len(),
                        idx_y == srcs.1 * self.buckets(),
                        idx_y + self.buckets() <= self.total_len(),
                        idx_x + self.buckets() <= idx_t || idx_t + self.buckets() <= idx_x,
                        idx_y + self.buckets() <= idx_t || idx_t + self.buckets() <= idx_y,
                        xd == orig.dist(srcs.0 as int),
                        yd == orig.dist(srcs.1 as int),
                        xd.len() == self.buckets(),
                        yd.len() == self.buckets(),
                        fnp2_req(f, size, xd, yd),
                        fnp2_det(f, size, xd, yd),
                        fnp2_bounded(f, size, xd, yd),
                        px == xd[x as int],
                        py == yd[y as int],
                        forall|bb: usize, xx: usize, yy: usize|
                            bb <= size && xx < x && yy <= size
                                ==> #[trigger] call_ensures(
                                f,
                                (bb, xx, xd[xx as int], yy, yd[yy as int]),
                                fnp2_choose(f, bb, xx, xd[xx as int], yy, yd[yy as int]),
                            ),
                        forall|bb: usize, yy: usize|
                            bb <= size && yy < y
                                ==> #[trigger] call_ensures(
                                f,
                                (bb, x, xd[x as int], yy, yd[yy as int]),
                                fnp2_choose(f, bb, x, xd[x as int], yy, yd[yy as int]),
                            ),
                        forall|bb: usize|
                            bb < b
                                ==> #[trigger] call_ensures(
                                f,
                                (bb, x, xd[x as int], y, yd[y as int]),
                                fnp2_choose(f, bb, x, xd[x as int], y, yd[y as int]),
                            ),
                        forall|i: int|
                            0 <= i < self.values@.len() && !(idx_t <= i < idx_t + self.buckets())
                                ==> self.values@[i] == orig.values@[i],
                        forall|i: int|
                            idx_t <= i < idx_t + b
                                ==> self.values@[i] as int == capped(
                                convp2_sum(f, xd, yd, i - idx_t, x as int, size + 1) + convp2_row(
                                    f,
                                    px,
                                    yd,
                                    i - idx_t,
                                    x as int,
                                    y + 1,
                                ),
                            ),
                        forall|i: int|
                            idx_t + b <= i < idx_t + self.buckets()
                                ==> self.values@[i] as int == capped(
                                convp2_sum(f, xd, yd, i - idx_t, x as int, size + 1) + convp2_row(
                                    f,
                                    px,
                                    yd,
                                    i - idx_t,
                                    x as int,
                                    y as int,
                                ),
                            ),
                    decreases self.size + 1 - b,
                {
                    let m = f(b, x, px, y, py);
                    proof {
                        assert(call_ensures(f, (b, x, xd[x as int], y, yd[y as int]), m));
                        assert(fnp2_choose(f, b, x, xd[x as int], y, yd[y as int]) == m);
                        assert(m <= PROB_CAP);
                        lemma_convp2_sum_nonneg(f, xd, yd, b as int, x as int, size + 1);
                        lemma_convp2_row_nonneg(f, px, yd, b as int, x as int, y as int);
                        crate::prob::lemma_capped_add(
                            convp2_sum(f, xd, yd, b as int, x as int, size + 1) + convp2_row(
                                f,
                                px,
                                yd,
                                b as int,
                                x as int,
                                y as int,
                            ),
                            m as int,
                        );
                    }
                    let cur = self.values[idx_t + b];
                    let nv = padd(cur, m);
                    self.values.set(idx_t + b, nv);
                    b += 1;
                }
                y += 1;
            }
            x += 1;
        }
        proof {
            assert forall|b: int|
                0 <= b < self.buckets()
                    implies self.dist(target as int)[b] as int == capped(
                    convp2_sum(f, xd, yd, b, size + 1, size + 1),
                ) by {
                lemma_convp2_sum_nonneg(f, xd, yd, b, size + 1, size + 1);
            }
            assert(self.dist(target as int) =~= Seq::new(
                (size + 1) as nat,
                |b: int| capped(convp2_sum(f, xd, yd, b, size + 1, size + 1)) as u64,
            ));
            assert forall|s: int|
                0 <= s < self.count_spec() && s != target
                    implies self.dist(s) == orig.dist(s) by {
                self.lemma_slot_range(s);
                if s < target {
                    self.lemma_slots_disjoint(s, target as int);
                } else {
                    self.lemma_slots_disjoint(target as int, s);
                }
                assert(self.dist(s) =~= orig.dist(s));
            }
        }
    }

    /// Propagates three input distributions through a caller-supplied
    /// accumulator function with direct read access to all three inputs'
    /// bucket masses (the undefined buckets included): bucket `b` collects
    /// `f(b, x, px, y, py, z, pz)` over every triple of input buckets.
    pub fn compute_at_3_prob<F: Fn(usize, usize, u64, usize, u64, usize, u64) -> u64>(
        &mut self,
        target: usize,
        srcs: (usize, usize, usize),
        f: F,
    )
        requires
            old(self).wf(),
            target < old(self).count_spec(),
            srcs.0 < old(self).count_spec(),
            srcs.1 < old(self).count_spec(),
            srcs.2 < old(self).count_spec(),
            srcs.0 != target,
            srcs.1 != target,
            srcs.2 != target,
            fnp3_req(
                f,
                old(self).size_spec(),
                old(self).dist(srcs.0 as int),
                old(self).dist(srcs.1 as int),
                old(self).dist(srcs.2 as int),
            ),
            fnp3_det(
                f,
                old(self).size_spec(),
                old(self).dist(srcs.0 as int),
                old(self).dist(srcs.1 as int),
                old(self).dist(srcs.2 as int),
            ),
            fnp3_bounded(
                f,
                old(self).size_spec(),
                old(self).dist(srcs.0 as int),
                old(self).dist(srcs.1 as int),
                old(self).dist(srcs.2 as int),
            ),
        ensures
            final(self).wf(),
            final(self).size_spec() == old(self).size_spec(),
            final(self).count_spec() == old(self).count_spec(),
            final(self).total_len() == old(self).total_len(),
            forall|s: int|
                0 <= s < final(self).count_spec() && s != target
                    ==> final(self).dist(s) == old(self).dist(s),
            final(self).dist(target as int) == Seq::new(
                (old(self).size_spec() + 1) as nat,
                |b: int| capped(
                    convp3_sum(
                        f,
                        old(self).dist(srcs.0 as int),
                        old(self).dist(srcs.1 as int),
                        old(self).dist(srcs.2 as int),
                        b,
                        old(self).size_spec() + 1,
                        old(self).size_spec() + 1,
                        old(self).size_spec() + 1,
                    ),
                ) as u64,
            ),
            fnp3_can(
                f,
                old(self).size_spec(),
                old(self).dist(srcs.0 as int),
                old(self).dist(srcs.1 as int),
                old(self).dist(srcs.2 as int),
            ),
    {
        let ghost orig = *self;
        let ghost xd = orig.dist(srcs.0 as int);
        let ghost yd = orig.dist(srcs.1 as int);
        let ghost zd = orig.dist(srcs.2 as int);
        let ghost size = orig.size_spec();
        let idx_t = self.computed_idx(target);
        let idx_x = self.computed_idx(srcs.0);
        let idx_y = self.computed_idx(srcs.1);
        let idx_z = self.computed_idx(srcs.2);
        proof {
            self.lemma_len_bound();
            self.lemma_slot_range(srcs.0 as int);
            self.lemma_slot_range(srcs.1 as int);
            self.lemma_slot_range(srcs.2 as int);
            if srcs.0 < target {
                self.lemma_slots_disjoint(srcs.0 as int, target as int);
            } else {
                self.lemma_slots_disjoint(target as int, srcs.0 as int);
            }
            if srcs.1 < target {
                self.lemma_slots_disjoint(srcs.1 as int, target as int);
            } else {
                self.lemma_slots_disjoint(target as int, srcs.1 as int);
            }
            if srcs.2 < target {
                self.lemma_slots_disjoint(srcs.2 as int, target as int);
            } else {
                self.lemma_slots_disjoint(target as int, srcs.2 as int);
            }
        }
        // Clear out all target values.
        let mut t: usize = 0;
        while t < self.size + 1
            invariant
                self.size == orig.size,
                self.size < usize::MAX,
                self.total_len() == orig.total_len(),
                self.total_len() <= usize::MAX,
                self.wf(),
                t <= self.buckets(),
                idx_t == target * self.buckets(),
                idx_t + self.buckets() <= self.total_len(),
                forall|i: int| idx_t <= i < idx_t + t ==> self.values@[i] == 0,
                forall|i: int|
                    0 <= i < self.values@.len() && !(idx_t <= i < idx_t + t)
                        ==> self.values@[i] == orig.values@[i],
            decreases self.size + 1 - t,
        {
            self.values.set(idx_t + t, 0);
            t += 1;
        }
        // For every triple of input buckets, let f place its contribution
        // everywhere.
        let mut x: usize = 0;
        while x < self.size + 1
            invariant
                self.size == orig.size,
                self.size < usize::MAX,
                self.total_len() == orig.total_len(),
                self.total_len() <= usize::MAX,
                self.wf(),
                orig.wf(),
                x <= self.buckets(),
                size == self.size_spec(),
                idx_t == target * self.buckets(),
                idx_t + self.buckets() <= self.total_len(),
                idx_x == srcs.0 * self.buckets(),
                idx_x + self.buckets() <= self.total_len(),
                idx_y == srcs.1 * self.buckets(),
                idx_y + self.buckets() <= self.total_len(),
                idx_z == srcs.2 * self.buckets(),
                idx_z + self.buckets() <= self.total_len(),
                idx_x + self.buckets() <= idx_t || idx_t + self.buckets() <= idx_x,
                idx_y + self.buckets() <= idx_t || idx_t + self.buckets() <= idx_y,
                idx_z + self.buckets() <= idx_t || idx_t + self.buckets() <= idx_z,
                xd == orig.dist(srcs.0 as int),
                yd == orig.dist(srcs.1 as int),
                zd == orig.dist(srcs.2 as int),
                xd.len() == self.buckets(),
                yd.len() == self.buckets(),
                zd.len() == self.buckets(),
                fnp3_req(f, size, xd, yd, zd),
                fnp3_det(f, size, xd, yd, zd),
                fnp3_bounded(f, size, xd, yd, zd),
                forall|bb: usize, xx: usize, yy: usize, zz: usize|
                    bb <= size && xx < x && yy <= size && zz <= size
                        ==> #[trigger] call_ensures(
                        f,
                        (bb, xx, xd[xx as int], yy, yd[yy as int], zz, zd[zz as int]),
                        fnp3_choose(f, bb, xx, xd[xx as int], yy, yd[yy as int], zz, zd[zz as int]),
                    ),
                forall|i: int|
                    0 <= i < self.values@.len() && !(idx_t <= i < idx_t + self.buckets())
                        ==> self.values@[i] == orig.values@[i],
                forall|i: int|
                    idx_t <= i < idx_t + self.buckets()
                        ==> self.values@[i] as int == capped(
                        convp3_sum(f, xd, yd, zd, i - idx_t, x as int, size + 1, size + 1),
                    ),
            decreases self.size + 1 - x,
        {
            let px = self.values[idx_x + x];
            proof {
                assert(px == xd[x as int]);
            }
            let mut y: usize = 0;
            while y < self.size + 1
                invariant
                    self.size == orig.size,
                    self.size < usize::MAX,
                    self.total_len() == orig.total_len(),
                    self.total_len() <= usize::MAX,
                    self.wf(),
                    orig.wf(),
                    x < self.buckets(),
                    y <= self.buckets(),
                    size == self.size_spec(),
                    idx_t == target * self.buckets(),
                    idx_t + self.buckets() <= self.total_len(),
                    idx_x == srcs.0 * self.buckets(),
                    idx_x + self.buckets() <= self.total_len(),
                    idx_y == srcs.1 * self.buckets(),
                    idx_y + self.buckets() <= self.total_len(),
                    idx_z == srcs.2 * self.buckets(),
                    idx_z + self.buckets() <= self.total_len(),
                    idx_x + self.buckets() <= idx_t || idx_t + self.buckets() <= idx_x,
                    idx_y + self.buckets() <= idx_t || idx_t + self.buckets() <= idx_y,
                    idx_z + self.buckets() <= idx_t || idx_t + self.buckets() <= idx_z,
                    xd == orig.dist(srcs.0 as int),
                    yd == orig.dist(srcs.1 as int),
                    zd == orig.dist(srcs.2 as int),
                    xd.len() == self.buckets(),
                    yd.len() == self.buckets(),
                    zd.len() == self.buckets(),
                    fnp3_req(f, size, xd, yd, zd),
                    fnp3_det(f, size, xd, yd, zd),
                    fnp3_bounded(f, size, xd, yd, zd),
                    px == xd[x as int],
                    forall|bb: usize, xx: usize, yy: usize, zz: usize|
                        bb <= size && xx < x && yy <= size && zz <= size
                            ==> #[trigger] call_ensures(
                            f,
                            (bb, xx, xd[xx as int], yy, yd[yy as int], zz, zd[zz as int]),
                            fnp3_choose(
                                f, bb, xx, xd[xx as int], yy, yd[yy as int], zz, zd[zz as int]),
                        ),
                    forall|bb: usize, yy: usize, zz: usize|
                        bb <= size && yy < y && zz <= size
                            ==> #[trigger] call_ensures(
                            f,
                            (bb, x, xd[x as int], yy, yd[yy as int], zz, zd[zz as int]),
                            fnp3_choose(
                                f, bb, x, xd[x as int], yy, yd[yy as int], zz, zd[zz as int]),
                        ),
                    forall|i: int|
                        0 <= i < self.values@.len() && !(idx_t <= i < idx_t + self.buckets())
                            ==> self.values@[i] == orig.values@[i],
                    forall|i: int|
                        idx_t <= i < idx_t + self.buckets()
                            ==> self.values@[i] as int == capped(
                            convp3_sum(f, xd, yd, zd, i - idx_t, x as int, size + 1, size + 1)
                                + convp3_row(f, px, yd, zd, i - idx_t, x as int, y as int, size + 1),
                        ),
                decreases self.size + 1 - y,
            {
                let py = self.values[idx_y + y];
                proof {
                    assert(py == yd[y as int]);
                }
                let mut z: usize = 0;
                while z < self.size + 1
                    invariant
                        self.size == orig.size,
                        self.size < usize::MAX,
                        self.total_len() == orig.total_len(),
                        self.total_len() <= usize::MAX,
                        self.wf(),
                        orig.wf(),
                        x < self.buckets(),
                        y < self.buckets(),
                        z <= self.buckets(),
                        size == self.size_spec(),
                        idx_t == target * self.buckets(),
                        idx_t + self.buckets() <= self.total_len(),
                        idx_x == srcs.0 * self.buckets(),
                        idx_x + self.buckets() <= self.total_len(),
                        idx_y == srcs.1 * self.buckets(),
                        idx_y + self.buckets() <= self.total_len(),
                        idx_z == srcs.2 * self.buckets(),
                        idx_z + self.buckets() <= self.total_len(),
                        idx_x + self.buckets() <= idx_t || idx_t + self.buckets() <= idx_x,
                        idx_y + self.buckets() <= idx_t || idx_t + self.buckets() <= idx_y,
                        idx_z + self.buckets() <= idx_t || idx_t + self.buckets() <= idx_z,
                        xd == orig.dist(srcs.0 as int),
                        yd == orig.dist(srcs.1 as int),
                        zd == orig.dist(srcs.2 as int),
                        xd.len() == self.buckets(),
                        yd.len() == self.buckets(),
                        zd.len() == self.buckets(),
                        fnp3_req(f, size, xd, yd, zd),
                        fnp3_det(f, size, xd, yd, zd),
                        fnp3_bounded(f, size, xd, yd, zd),
                        px == xd[x as int],
                        py == yd[y as int],
                        forall|bb: usize, xx: usize, yy: usize, zz: usize|
                            bb <= size && xx < x && yy <= size && zz <= size
                                ==> #[trigger] call_ensures(
                                f,
                                (bb, xx, xd[xx as int], yy, yd[yy as int], zz, zd[zz as int]),
                                fnp3_choose(
                                    f, bb, xx, xd[xx as int], yy, yd[yy as int], zz,
                                    zd[zz as int]),
                            ),
                        forall|bb: usize, yy: usize, zz: usize|
                            bb <= size && yy < y && zz <= size
                                ==> #[trigger] call_ensures(
                                f,
                                (bb, x, xd[x as int], yy, yd[yy as int], zz, zd[zz as int]),
                                fnp3_choose(
                                    f, bb, x, xd[x as int], yy, yd[yy as int], zz, zd[zz as int]),
                            ),
                        forall|bb: usize, zz: usize|
                            bb <= size && zz < z
                                ==> #[trigger] call_ensures(
                                f,
                                (bb, x, xd[x as int], y, yd[y as int], zz, zd[zz as int]),
                                fnp3_choose(
                                    f, bb, x, xd[x as int], y, yd[y as int], zz, zd[zz as int]),
                            ),
                        forall|i: int|
                            0 <= i < self.values@.len() && !(idx_t <= i < idx_t + self.buckets())
                                ==> self.values@[i] == orig.values@[i],
                        forall|i: int|
                            idx_t <= i < idx_t + self.buckets()
                                ==> self.values@[i] as int == capped(
                                convp3_sum(f, xd, yd, zd, i - idx_t, x as int, size + 1, size + 1)
                                    + convp3_row(
                                    f, px, yd, zd, i - idx_t, x as int, y as int, size + 1)
                                    + convp3_cell(
                                    f, px, py, zd, i - idx_t, x as int, y as int, z as int),
                            ),
                    decreases self.size + 1 - z,
                {
                    let pz = self.values[idx_z + z];
                    proof {
                        assert(pz == zd[z as int]);
                    }
                    let mut b: usize = 0;
                    while b < self.size + 1
                        invariant
                            self.size == orig.size,
                            self.size < usize::MAX,
                            self.total_len() == orig.total_len(),
                            self.total_len() <= usize::MAX,
                            self.wf(),
                            orig.wf(),
                            x < self.buckets(),
                            y < self.buckets(),
                            z < self.buckets(),
                            b <= self.buckets(),
                            size == self.size_spec(),
                            idx_t == target * self.buckets(),
                            idx_t + self.buckets() <= self.total_len(),
                            idx_x == srcs.0 * self.buckets(),
                            idx_x + self.buckets() <= self.total_len(),
                            idx_y == srcs.1 * self.buckets(),
                            idx_y + self.buckets() <= self.total_len(),
                            idx_z == srcs.2 * self.buckets(),
                            idx_z + self.buckets() <= self.total_len(),
                            idx_x + self.buckets() <= idx_t || idx_t + self.buckets() <= idx_x,
                            idx_y + self.buckets() <= idx_t || idx_t + self.buckets() <= idx_y,
                            idx_z + self.buckets() <= idx_t || idx_t + self.buckets() <= idx_z,
                            xd == orig.dist(srcs.0 as int),
                            yd == orig.dist(srcs.1 as int),
                            zd == orig.dist(srcs.2 as int),
                            xd.len() == self.buckets(),
                            yd.len() == self.buckets(),
                            zd.len() == self.buckets(),
                            fnp3_req(f, size, xd, yd, zd),
                            fnp3_det(f, size, xd, yd, zd),
                            fnp3_bounded(f, size, xd, yd, zd),
                            px == xd[x as int],
                            py == yd[y as int],
                            pz == zd[z as int],
                            forall|bb: usize, xx: usize, yy: usize, zz: usize|
                                bb <= size && xx < x && yy <= size && zz <= size
                                    ==> #[trigger] call_ensures(
                                    f,
                                    (bb, xx, xd[xx as int], yy, yd[yy as int], zz, zd[zz as int]),
                                    fnp3_choose(
                                        f, bb, xx, xd[xx as int], yy, yd[yy as int], zz,
                                        zd[zz as int]),
                                ),
                            forall|bb: usize, yy: usize, zz: usize|
                                bb <= size && yy < y && zz <= size
                                    ==> #[trigger] call_ensures(
                                    f,
                                    (bb, x, xd[x as int], yy, yd[yy as int], zz, zd[zz as int]),
                                    fnp3_choose(
                                        f, bb, x, xd[x as int], yy, yd[yy as int], zz,
                                        zd[zz as int]),
                                ),
                            forall|bb: usize, zz: usize|
                                bb <= size && zz < z
                                    ==> #[trigger] call_ensures(
                                    f,
                                    (bb, x, xd[x as int], y, yd[y as int], zz, zd[zz as int]),
                                    fnp3_choose(
                                        f, bb, x, xd[x as int], y, yd[y as int], zz,
                                        zd[zz as int]),
                                ),
                            forall|bb: usize|
                                bb < b
                                    ==> #[trigger] call_ensures(
                                    f,
                                    (bb, x, xd[x as int], y, yd[y as int], z, zd[z as int]),
                                    fnp3_choose(
                                        f, bb, x, xd[x as int], y, yd[y as int], z, zd[z as int]),
                                ),
                            forall|i: int|
                                0 <= i < self.values@.len() && !(idx_t <= i < idx_t
                                    + self.buckets()) ==> self.values@[i] == orig.values@[i],
                            forall|i: int|
                                idx_t <= i < idx_t + b
                                    ==> self.values@[i] as int == capped(
                                    convp3_sum(
                                        f, xd, yd, zd, i - idx_t, x as int, size + 1, size + 1)
                                        + convp3_row(
                                        f, px, yd, zd, i - idx_t, x as int, y as int, size + 1)
                                        + convp3_cell(
                                        f, px, py, zd, i - idx_t, x as int, y as int, z + 1),
                                ),
                            forall|i: int|
                                idx_t + b <= i < idx_t + self.buckets()
                                    ==> self.values@[i] as int == capped(
                                    convp3_sum(
                                        f, xd, yd, zd, i - idx_t, x as int, size + 1, size + 1)
                                        + convp3_row(
                                        f, px, yd, zd, i - idx_t, x as int, y as int, size + 1)
                                        + convp3_cell(
                                        f, px, py, zd, i - idx_t, x as int, y as int, z as int),
                                ),
                        decreases self.size + 1 - b,
                    {
                        let m = f(b, x, px, y, py, z, pz);
                        proof {
                            assert(call_ensures(
                                f,
                                (b, x, xd[x as int], y, yd[y as int], z, zd[z as int]),
                                m,
                            ));
                            assert(fnp3_choose(
                                f, b, x, xd[x as int], y, yd[y as int], z, zd[z as int]) == m);
                            assert(m <= PROB_CAP);
                            lemma_convp3_sum_nonneg(
                                f, xd, yd, zd, b as int, x as int, size + 1, size + 1);
                            lemma_convp3_row_nonneg(
                                f, px, yd, zd, b as int, x as int, y as int, size + 1);
                            lemma_convp3_cell_nonneg(
                                f, px, py, zd, b as int, x as int, y as int, z as int);
                            crate::prob::lemma_capped_add(
                                convp3_sum(f, xd, yd, zd, b as int, x as int, size + 1, size + 1)
                                    + convp3_row(
                                    f, px, yd, zd, b as int, x as int, y as int, size + 1)
                                    + convp3_cell(
                                    f, px, py, zd, b as int, x as int, y as int, z as int),
                                m as int,
                            );
                        }
                        let cur = self.values[idx_t + b];
                        let nv = padd(cur, m);
                        self.values.set(idx_t + b, nv);
                        b += 1;
                    }
                    z += 1;
                }
                y += 1;
            }
            x += 1;
        }
        proof {
            assert forall|b: int|
                0 <= b < self.buckets()
                    implies self.dist(target as int)[b] as int == capped(
                    convp3_sum(f, xd, yd, zd, b, size + 1, size + 1, size + 1),
                ) by {
                lemma_convp3_sum_nonneg(f, xd, yd, zd, b, size + 1, size + 1, size + 1);
            }
            assert(self.dist(target as int) =~= Seq::new(
                (size + 1) as nat,
                |b: int| capped(convp3_sum(f, xd, yd, zd, b, size + 1, size + 1, size + 1)) as u64,
            ));
            assert forall|s: int|
                0 <= s < self.count_spec() && s != target
                    implies self.dist(s) == orig.dist(s) by {
                self.lemma_slot_range(s);
                if s < target {
                    self.lemma_slots_disjoint(s, target as int);
                } else {
                    self.lemma_slots_disjoint(target as int, s);
                }
                assert(self.dist(s) =~= orig.dist(s));
            }
        }
    }
}

/// Copies `src` over the run of `dest` starting at `offset`; the run must
/// lie inside `dest`.
pub fn copy_into_slice<T: Copy>(dest: &mut Vec<T>, offset: usize, src: &Vec<T>)
    requires
        offset + src@.len() <= old(dest)@.len(),
    ensures
        final(dest)@.len() == old(dest)@.len(),
        forall|i: int| 0 <= i < src@.len() ==> final(dest)@[offset + i] == src@[i],
        forall|i: int|
            0 <= i < final(dest)@.len() && !(offset <= i < offset + src@.len())
                ==> final(dest)@[i] == old(dest)@[i],
{
    let n = src.len();
    let dl = dest.len();
    let mut s: usize = 0;
    while s < n
        invariant
            s <= n,
            n == src@.len(),
            offset + n <= dl,
            dl == dest@.len(),
            offset + n <= dest@.len(),
            dest@.len() == old(dest)@.len(),
            forall|i: int| 0 <= i < s ==> dest@[offset + i] == src@[i],
            forall|i: int|
                0 <= i < dest@.len() && !(offset <= i < offset + s) ==> dest@[i] == old(dest)@[i],
        decreases n - s,
    {
        dest.set(offset + s, src[s]);
        s += 1;
    }
}

} // verus!
