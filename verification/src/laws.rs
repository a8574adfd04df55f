//! Conservation and clamping laws of the convolution primitives, stated
//! and proved once over the bucket-map form all operators share.

use vstd::prelude::*;
use crate::prob::{PROB_ONE, PROB_CAP, capped, pmul_spec, lemma_pmul_spec_bounds};
use crate::computed_distributions::{
    one_hot, conv1_sum, conv1_dist, conv2_row, conv2_sum, conv2_dist, conv3_cell, conv3_row,
    conv3_sum, conv3_dist, lemma_conv1_sum_nonneg, lemma_conv2_sum_nonneg,
    lemma_conv3_sum_nonneg, undef_base,
};
use crate::operator::{
    Operator, op_output, inc_bucket, not_bucket, and_bucket, ite_bucket, not_val, and_val, ite_val,
};
use crate::computed_distributions::{clamp_bucket, ComputedDistributions};

verus! {

/// The total mass held by the first `n` buckets of a distribution.
pub open spec fn mass_sum(d: Seq<u64>, n: int) -> int
    decreases n,
{
    if n <= 0 {
        0
    } else {
        mass_sum(d, n - 1) + d[n - 1]
    }
}

/// Every partial bucket total is non-negative.
pub proof fn lemma_mass_sum_nonneg(d: Seq<u64>, n: int)
    ensures
        mass_sum(d, n) >= 0,
    decreases n,
{
    if n > 0 {
        lemma_mass_sum_nonneg(d, n - 1);
    }
}

/// A single mass never exceeds the total over buckets that include it.
pub proof fn lemma_mass_le_sum(d: Seq<u64>, x: int, n: int)
    requires
        0 <= x < n,
    ensures
        d[x] <= mass_sum(d, n),
    decreases n,
{
    lemma_mass_sum_nonneg(d, n - 1);
    if x < n - 1 {
        lemma_mass_le_sum(d, x, n - 1);
    }
}

/// The arity-1 convolution mass summed over the first `m` buckets.
pub open spec fn conv1_buckets(xd: Seq<u64>, g: spec_fn(int) -> int, m: int, n: int) -> int
    decreases m,
{
    if m <= 0 {
        0
    } else {
        conv1_buckets(xd, g, m - 1, n) + conv1_sum(xd, g, m - 1, n)
    }
}

/// Adding input value `n - 1` adds its mass to exactly one bucket, so the
/// bucket total grows by that mass exactly when the value's bucket lies
/// below `m`.
proof fn lemma_conv1_buckets_step(xd: Seq<u64>, g: spec_fn(int) -> int, m: int, n: int)
    requires
        n >= 1,
    ensures
        conv1_buckets(xd, g, m, n) == conv1_buckets(xd, g, m, n - 1) + (if 0 <= g(n - 1) < m {
            xd[n - 1] as int
        } else {
            0int
        }),
    decreases m,
{
    if m > 0 {
        lemma_conv1_buckets_step(xd, g, m - 1, n);
        assert(conv1_sum(xd, g, m - 1, n) == conv1_sum(xd, g, m - 1, n - 1) + (
        if g(n - 1) == m - 1 {
            xd[n - 1] as int
        } else {
            0int
        }));
        assert(conv1_buckets(xd, g, m, n) == conv1_buckets(xd, g, m - 1, n) + conv1_sum(
            xd,
            g,
            m - 1,
            n,
        ));
        assert(conv1_buckets(xd, g, m, n - 1) == conv1_buckets(xd, g, m - 1, n - 1) + conv1_sum(
            xd,
            g,
            m - 1,
            n - 1,
        ));
    }
}

/// With no input values, no bucket holds any mass.
proof fn lemma_conv1_buckets_empty(xd: Seq<u64>, g: spec_fn(int) -> int, m: int, n: int)
    requires
        n <= 0,
    ensures
        conv1_buckets(xd, g, m, n) == 0,
    decreases m,
{
    if m > 0 {
        lemma_conv1_buckets_empty(xd, g, m - 1, n);
    }
}

/// Over a bucket map that stays inside the domain, the arity-1
/// convolution conserves mass: the bucket totals equal the input mass.
proof fn lemma_conv1_buckets_total(xd: Seq<u64>, g: spec_fn(int) -> int, size: int, n: int)
    requires
        forall|x: int| 0 <= x < n ==> 0 <= #[trigger] g(x) < size,
    ensures
        conv1_buckets(xd, g, size, n) == mass_sum(xd, n),
    decreases n,
{
    if n <= 0 {
        lemma_conv1_buckets_empty(xd, g, size, n);
    }
    if n > 0 {
        lemma_conv1_buckets_total(xd, g, size, n - 1);
        lemma_conv1_buckets_step(xd, g, size, n);
        assert(0 <= g(n - 1) < size);
        assert(conv1_buckets(xd, g, size, n) == conv1_buckets(xd, g, size, n - 1) + xd[n
            - 1]);
        assert(mass_sum(xd, n) == mass_sum(xd, n - 1) + xd[n - 1]);
    }
}

/// Partial bucket totals of the arity-1 convolution are non-negative.
proof fn lemma_conv1_buckets_nonneg(xd: Seq<u64>, g: spec_fn(int) -> int, m: int, n: int)
    ensures
        conv1_buckets(xd, g, m, n) >= 0,
    decreases m,
{
    if m > 0 {
        lemma_conv1_buckets_nonneg(xd, g, m - 1, n);
        lemma_conv1_sum_nonneg(xd, g, m - 1, n);
    }
}

/// One bucket's convolution mass never exceeds the total over buckets
/// that include it.
proof fn lemma_conv1_bucket_le(xd: Seq<u64>, g: spec_fn(int) -> int, b: int, m: int, n: int)
    requires
        0 <= b < m,
    ensures
        conv1_sum(xd, g, b, n) <= conv1_buckets(xd, g, m, n),
    decreases m,
{
    lemma_conv1_buckets_nonneg(xd, g, m - 1, n);
    if b < m - 1 {
        lemma_conv1_bucket_le(xd, g, b, m - 1, n);
        lemma_conv1_sum_nonneg(xd, g, m - 1, n);
    }
}

/// The defined output buckets of the arity-1 result hold exactly the raw
/// convolution masses when nothing clamps.
proof fn lemma_conv1_dist_mass(xd: Seq<u64>, g: spec_fn(int) -> int, size: int, m: int)
    requires
        xd.len() == size + 1,
        xd[size] == 0,
        m <= size,
        forall|x: int| 0 <= x < size ==> 0 <= #[trigger] g(x) < size,
        conv1_buckets(xd, g, size, size) <= PROB_CAP,
    ensures
        mass_sum(conv1_dist(xd, g, size), m) == conv1_buckets(xd, g, m, size),
    decreases m,
{
    if m > 0 {
        lemma_conv1_dist_mass(xd, g, size, m - 1);
        lemma_conv1_sum_nonneg(xd, g, m - 1, size);
        lemma_conv1_bucket_le(xd, g, m - 1, size, size);
        assert(undef_base(m - 1, size, xd[size] as int) == 0);
        assert(conv1_dist(xd, g, size)[m - 1] as int == capped(conv1_sum(xd, g, m - 1, size)));
    }
}

/// Probability conservation, single input: for a fully defined input
/// distribution and an operator whose value function stays inside the
/// domain, the defined output mass equals the defined input mass exactly,
/// and the undefined bucket stays empty.
pub proof fn theorem_conservation_1(xd: Seq<u64>, g: spec_fn(int) -> int, size: int)
    requires
        size >= 0,
        xd.len() == size + 1,
        xd[size] == 0,
        forall|x: int| 0 <= x < size ==> 0 <= #[trigger] g(x) < size,
        mass_sum(xd, size) <= PROB_CAP,
    ensures
        mass_sum(conv1_dist(xd, g, size), size) == mass_sum(xd, size),
        conv1_dist(xd, g, size)[size] == 0,
{
    lemma_conv1_buckets_total(xd, g, size, size);
    lemma_conv1_dist_mass(xd, g, size, size);
    assert forall|x: int| 0 <= x < size implies (#[trigger] g(x)) != size by {}
    lemma_conv1_bucket_size_zero(xd, g, size, size);
    assert(conv1_dist(xd, g, size)[size] as int == capped(0 + conv1_sum(xd, g, size, size)));
}

/// The exact fixed-point mass an input value of mass `px` spreads over the
/// first `n` values of the second input.
pub open spec fn row_total(px: int, yd: Seq<u64>, n: int) -> int
    decreases n,
{
    if n <= 0 {
        0
    } else {
        row_total(px, yd, n - 1) + pmul_spec(px, yd[n - 1] as int)
    }
}

/// The exact fixed-point mass the first `n` values of the first input
/// spread over the first `ny` values of the second.
pub open spec fn grand_total(xd: Seq<u64>, yd: Seq<u64>, n: int, ny: int) -> int
    decreases n,
{
    if n <= 0 {
        0
    } else {
        grand_total(xd, yd, n - 1, ny) + row_total(xd[n - 1] as int, yd, ny)
    }
}

/// One arity-2 row's mass summed over the first `m` buckets.
pub open spec fn conv2_row_buckets(
    px: int,
    yd: Seq<u64>,
    g: spec_fn(int, int) -> int,
    x: int,
    m: int,
    n: int,
) -> int
    decreases m,
{
    if m <= 0 {
        0
    } else {
        conv2_row_buckets(px, yd, g, x, m - 1, n) + conv2_row(px, yd, g, x, m - 1, n)
    }
}

/// The arity-2 convolution mass summed over the first `m` buckets.
pub open spec fn conv2_buckets(
    xd: Seq<u64>,
    yd: Seq<u64>,
    g: spec_fn(int, int) -> int,
    m: int,
    n: int,
    ny: int,
) -> int
    decreases m,
{
    if m <= 0 {
        0
    } else {
        conv2_buckets(xd, yd, g, m - 1, n, ny) + conv2_sum(xd, yd, g, m - 1, n, ny)
    }
}

/// With no second-input values, no bucket of a row holds any mass.
proof fn lemma_conv2_row_buckets_empty(
    px: int,
    yd: Seq<u64>,
    g: spec_fn(int, int) -> int,
    x: int,
    m: int,
    n: int,
)
    requires
        n <= 0,
    ensures
        conv2_row_buckets(px, yd, g, x, m, n) == 0,
    decreases m,
{
    if m > 0 {
        lemma_conv2_row_buckets_empty(px, yd, g, x, m - 1, n);
    }
}

/// Adding second-input value `n - 1` adds one product to exactly one
/// bucket of the row.
proof fn lemma_conv2_row_buckets_step(
    px: int,
    yd: Seq<u64>,
    g: spec_fn(int, int) -> int,
    x: int,
    m: int,
    n: int,
)
    requires
        n >= 1,
    ensures
        conv2_row_buckets(px, yd, g, x, m, n) == conv2_row_buckets(px, yd, g, x, m, n - 1) + (
        if 0 <= g(x, n - 1) < m {
            pmul_spec(px, yd[n - 1] as int)
        } else {
            0int
        }),
    decreases m,
{
    if m > 0 {
        lemma_conv2_row_buckets_step(px, yd, g, x, m - 1, n);
        assert(conv2_row(px, yd, g, x, m - 1, n) == conv2_row(px, yd, g, x, m - 1, n - 1) + (
        if g(x, n - 1) == m - 1 {
            pmul_spec(px, yd[n - 1] as int)
        } else {
            0int
        }));
        assert(conv2_row_buckets(px, yd, g, x, m, n) == conv2_row_buckets(px, yd, g, x, m - 1, n)
            + conv2_row(px, yd, g, x, m - 1, n));
        assert(conv2_row_buckets(px, yd, g, x, m, n - 1) == conv2_row_buckets(
            px,
            yd,
            g,
            x,
            m - 1,
            n - 1,
        ) + conv2_row(px, yd, g, x, m - 1, n - 1));
    }
}

/// Over an in-domain bucket map, a row conserves its mass exactly.
proof fn lemma_conv2_row_buckets_total(
    px: int,
    yd: Seq<u64>,
    g: spec_fn(int, int) -> int,
    x: int,
    size: int,
    n: int,
)
    requires
        forall|y: int| 0 <= y < n ==> 0 <= #[trigger] g(x, y) < size,
    ensures
        conv2_row_buckets(px, yd, g, x, size, n) == row_total(px, yd, n),
    decreases n,
{
    if n <= 0 {
        lemma_conv2_row_buckets_empty(px, yd, g, x, size, n);
    }
    if n > 0 {
        lemma_conv2_row_buckets_total(px, yd, g, x, size, n - 1);
        lemma_conv2_row_buckets_step(px, yd, g, x, size, n);
        assert(0 <= g(x, n - 1) < size);
    }
}

/// With no first-input values, no bucket holds any arity-2 mass.
proof fn lemma_conv2_buckets_empty(
    xd: Seq<u64>,
    yd: Seq<u64>,
    g: spec_fn(int, int) -> int,
    m: int,
    n: int,
    ny: int,
)
    requires
        n <= 0,
    ensures
        conv2_buckets(xd, yd, g, m, n, ny) == 0,
    decreases m,
{
    if m > 0 {
        lemma_conv2_buckets_empty(xd, yd, g, m - 1, n, ny);
    }
}

/// Adding first-input value `n - 1` adds exactly its row's bucket totals.
proof fn lemma_conv2_buckets_step(
    xd: Seq<u64>,
    yd: Seq<u64>,
    g: spec_fn(int, int) -> int,
    m: int,
    n: int,
    ny: int,
)
    requires
        n >= 1,
    ensures
        conv2_buckets(xd, yd, g, m, n, ny) == conv2_buckets(xd, yd, g, m, n - 1, ny)
            + conv2_row_buckets(xd[n - 1] as int, yd, g, n - 1, m, ny),
    decreases m,
{
    if m > 0 {
        lemma_conv2_buckets_step(xd, yd, g, m - 1, n, ny);
        assert(conv2_sum(xd, yd, g, m - 1, n, ny) == conv2_sum(xd, yd, g, m - 1, n - 1, ny)
            + conv2_row(xd[n - 1] as int, yd, g, n - 1, m - 1, ny));
        assert(conv2_buckets(xd, yd, g, m, n, ny) == conv2_buckets(xd, yd, g, m - 1, n, ny)
            + conv2_sum(xd, yd, g, m - 1, n, ny));
        assert(conv2_buckets(xd, yd, g, m, n - 1, ny) == conv2_buckets(xd, yd, g, m - 1, n - 1, ny)
            + conv2_sum(xd, yd, g, m - 1, n - 1, ny));
        assert(conv2_row_buckets(xd[n - 1] as int, yd, g, n - 1, m, ny) == conv2_row_buckets(
            xd[n - 1] as int,
            yd,
            g,
            n - 1,
            m - 1,
            ny,
        ) + conv2_row(xd[n - 1] as int, yd, g, n - 1, m - 1, ny));
    }
}

/// Over an in-domain bucket map, the arity-2 convolution conserves the
/// exact fixed-point pair total.
proof fn lemma_conv2_buckets_total(
    xd: Seq<u64>,
    yd: Seq<u64>,
    g: spec_fn(int, int) -> int,
    size: int,
    n: int,
)
    requires
        forall|x: int, y: int| 0 <= x < n && 0 <= y < size ==> 0 <= #[trigger] g(x, y) < size,
    ensures
        conv2_buckets(xd, yd, g, size, n, size) == grand_total(xd, yd, n, size),
    decreases n,
{
    if n <= 0 {
        lemma_conv2_buckets_empty(xd, yd, g, size, n, size);
    }
    if n > 0 {
        lemma_conv2_buckets_total(xd, yd, g, size, n - 1);
        lemma_conv2_buckets_step(xd, yd, g, size, n, size);
        lemma_conv2_row_buckets_total(xd[n - 1] as int, yd, g, n - 1, size, size);
    }
}

/// Partial bucket totals of the arity-2 convolution are non-negative.
proof fn lemma_conv2_buckets_nonneg(
    xd: Seq<u64>,
    yd: Seq<u64>,
    g: spec_fn(int, int) -> int,
    m: int,
    n: int,
    ny: int,
)
    ensures
        conv2_buckets(xd, yd, g, m, n, ny) >= 0,
    decreases m,
{
    if m > 0 {
        lemma_conv2_buckets_nonneg(xd, yd, g, m - 1, n, ny);
        lemma_conv2_sum_nonneg(xd, yd, g, m - 1, n, ny);
    }
}

/// One bucket's arity-2 mass never exceeds the total over buckets that
/// include it.
proof fn lemma_conv2_bucket_le(
    xd: Seq<u64>,
    yd: Seq<u64>,
    g: spec_fn(int, int) -> int,
    b: int,
    m: int,
    n: int,
    ny: int,
)
    requires
        0 <= b < m,
    ensures
        conv2_sum(xd, yd, g, b, n, ny) <= conv2_buckets(xd, yd, g, m, n, ny),
    decreases m,
{
    lemma_conv2_buckets_nonneg(xd, yd, g, m - 1, n, ny);
    if b < m - 1 {
        lemma_conv2_bucket_le(xd, yd, g, b, m - 1, n, ny);
        lemma_conv2_sum_nonneg(xd, yd, g, m - 1, n, ny);
    }
}

/// The fixed-point product of two masses of at most one unit loses
/// strictly less than one fixed-point step against the exact product.
proof fn lemma_pmul_floor_bounds(px: int, py: int)
    requires
        0 <= px <= PROB_ONE,
        0 <= py <= PROB_ONE,
    ensures
        PROB_ONE * pmul_spec(px, py) <= px * py,
        px * py < PROB_ONE * pmul_spec(px, py) + PROB_ONE,
        pmul_spec(px, py) <= PROB_ONE,
{
    let oi = PROB_ONE as int;
    vstd::arithmetic::mul::lemma_mul_nonnegative(px, py);
    vstd::arithmetic::mul::lemma_mul_upper_bound(px, oi, py, oi);
    vstd::arithmetic::div_mod::lemma_fundamental_div_mod(px * py, oi);
    vstd::arithmetic::div_mod::lemma_mod_bound(px * py, oi);
    vstd::arithmetic::div_mod::lemma_div_pos_is_pos(px * py, oi);
    assert((px * py) / oi <= oi) by {
        vstd::arithmetic::div_mod::lemma_div_is_ordered(px * py, oi * oi, oi);
        vstd::arithmetic::div_mod::lemma_div_by_multiple(oi, oi);
    }
    assert(pmul_spec(px, py) == (px * py) / oi);
}

/// A row's exact fixed-point total tracks the product of the input mass
/// with the second input's total mass, up to one step per pair.
proof fn lemma_row_total_bounds(px: int, yd: Seq<u64>, n: int)
    requires
        0 <= px <= PROB_ONE,
        forall|y: int| 0 <= y < n ==> (#[trigger] yd[y]) <= PROB_ONE,
    ensures
        PROB_ONE * row_total(px, yd, n) <= px * mass_sum(yd, n),
        px * mass_sum(yd, n) < PROB_ONE * row_total(px, yd, n) + PROB_ONE * n || n <= 0,
        row_total(px, yd, n) >= 0,
    decreases n,
{
    if n > 0 {
        lemma_row_total_bounds(px, yd, n - 1);
        lemma_pmul_floor_bounds(px, yd[n - 1] as int);
        assert(px * mass_sum(yd, n) == px * mass_sum(yd, n - 1) + px * (yd[n - 1] as int)) by {
            vstd::arithmetic::mul::lemma_mul_is_distributive_add(
                px,
                mass_sum(yd, n - 1),
                yd[n - 1] as int,
            );
        }
        assert(PROB_ONE * row_total(px, yd, n) == PROB_ONE * row_total(px, yd, n - 1) + PROB_ONE
            * pmul_spec(px, yd[n - 1] as int)) by {
            vstd::arithmetic::mul::lemma_mul_is_distributive_add(
                PROB_ONE as int,
                row_total(px, yd, n - 1),
                pmul_spec(px, yd[n - 1] as int),
            );
        }
        crate::prob::lemma_pmul_spec_bounds(px, yd[n - 1] as int);
    }
}

/// The grand fixed-point total tracks the product of the two input
/// masses, up to one step per input pair.
proof fn lemma_grand_total_bounds(xd: Seq<u64>, yd: Seq<u64>, n: int, ny: int)
    requires
        ny >= 0,
        forall|x: int| 0 <= x < n ==> (#[trigger] xd[x]) <= PROB_ONE,
        forall|y: int| 0 <= y < ny ==> (#[trigger] yd[y]) <= PROB_ONE,
        0 <= mass_sum(yd, ny) <= PROB_ONE,
    ensures
        PROB_ONE * grand_total(xd, yd, n, ny) <= mass_sum(xd, n) * mass_sum(yd, ny),
        mass_sum(xd, n) * mass_sum(yd, ny) < PROB_ONE * grand_total(xd, yd, n, ny) + PROB_ONE * n
            * ny || n <= 0 || ny <= 0,
        grand_total(xd, yd, n, ny) >= 0,
    decreases n,
{
    if n > 0 {
        lemma_grand_total_bounds(xd, yd, n - 1, ny);
        lemma_row_total_bounds(xd[n - 1] as int, yd, ny);
        assert(mass_sum(xd, n) * mass_sum(yd, ny) == mass_sum(xd, n - 1) * mass_sum(yd, ny) + (
        xd[n - 1] as int) * mass_sum(yd, ny)) by {
            vstd::arithmetic::mul::lemma_mul_is_distributive_add_other_way(
                mass_sum(yd, ny),
                mass_sum(xd, n - 1),
                xd[n - 1] as int,
            );
        }
        assert(PROB_ONE * grand_total(xd, yd, n, ny) == PROB_ONE * grand_total(xd, yd, n - 1, ny)
            + PROB_ONE * row_total(xd[n - 1] as int, yd, ny)) by {
            vstd::arithmetic::mul::lemma_mul_is_distributive_add(
                PROB_ONE as int,
                grand_total(xd, yd, n - 1, ny),
                row_total(xd[n - 1] as int, yd, ny),
            );
        }
        assert(PROB_ONE * n * ny == PROB_ONE * (n - 1) * ny + PROB_ONE * ny) by (nonlinear_arith);
        if n - 1 <= 0 {
            assert(mass_sum(xd, n - 1) * mass_sum(yd, ny) == 0) by (nonlinear_arith)
                requires mass_sum(xd, n - 1) == 0;
            assert(grand_total(xd, yd, n - 1, ny) == 0);
        }
    }
}

/// A bucket no input value maps to collects no arity-1 convolution mass.
proof fn lemma_conv1_bucket_size_zero(xd: Seq<u64>, g: spec_fn(int) -> int, size: int, n: int)
    requires
        forall|x: int| 0 <= x < n ==> 0 <= #[trigger] g(x) < size,
    ensures
        conv1_sum(xd, g, size, n) == 0,
    decreases n,
{
    if n > 0 {
        lemma_conv1_bucket_size_zero(xd, g, size, n - 1);
    }
}

/// A bucket no input pair maps to collects no arity-2 row mass.
proof fn lemma_conv2_row_bucket_zero(
    px: int,
    yd: Seq<u64>,
    g: spec_fn(int, int) -> int,
    x: int,
    b: int,
    n: int,
)
    requires
        forall|y: int| 0 <= y < n ==> #[trigger] g(x, y) != b,
    ensures
        conv2_row(px, yd, g, x, b, n) == 0,
    decreases n,
{
    if n > 0 {
        lemma_conv2_row_bucket_zero(px, yd, g, x, b, n - 1);
    }
}

/// A bucket no input pair maps to collects no arity-2 convolution mass.
proof fn lemma_conv2_sum_bucket_zero(
    xd: Seq<u64>,
    yd: Seq<u64>,
    g: spec_fn(int, int) -> int,
    b: int,
    n: int,
    ny: int,
)
    requires
        forall|x: int, y: int| 0 <= x < n && 0 <= y < ny ==> #[trigger] g(x, y) != b,
    ensures
        conv2_sum(xd, yd, g, b, n, ny) == 0,
    decreases n,
{
    if n > 0 {
        lemma_conv2_sum_bucket_zero(xd, yd, g, b, n - 1, ny);
        lemma_conv2_row_bucket_zero(xd[n - 1] as int, yd, g, n - 1, b, ny);
    }
}

/// The defined output buckets of the arity-2 result hold exactly the raw
/// convolution masses when nothing clamps.
proof fn lemma_conv2_dist_mass(
    xd: Seq<u64>,
    yd: Seq<u64>,
    g: spec_fn(int, int) -> int,
    size: int,
    m: int,
)
    requires
        size >= 0,
        m <= size,
        xd[size] == 0,
        yd[size] == 0,
        conv2_buckets(xd, yd, g, size, size, size) <= PROB_CAP,
    ensures
        mass_sum(conv2_dist(xd, yd, g, size), m) == conv2_buckets(xd, yd, g, m, size, size),
    decreases m,
{
    if m > 0 {
        lemma_conv2_dist_mass(xd, yd, g, size, m - 1);
        lemma_conv2_sum_nonneg(xd, yd, g, m - 1, size, size);
        lemma_conv2_bucket_le(xd, yd, g, m - 1, size, size, size);
        assert(undef_base(m - 1, size, xd[size] + yd[size]) == 0);
        assert(conv2_dist(xd, yd, g, size)[m - 1] as int == capped(
            conv2_sum(xd, yd, g, m - 1, size, size),
        ));
    }
}

/// Probability conservation, two inputs: with both inputs fully defined
/// and an operator whose value function stays inside the domain, the
/// defined output mass is the fixed-point product of the defined input
/// masses, up to the rounding the fixed-point products lose -- strictly
/// less than one fixed-point step per pair of input values -- and the
/// undefined bucket stays empty.
pub proof fn theorem_conservation_2(
    xd: Seq<u64>,
    yd: Seq<u64>,
    g: spec_fn(int, int) -> int,
    size: int,
)
    requires
        size >= 1,
        xd.len() == size + 1,
        yd.len() == size + 1,
        xd[size] == 0,
        yd[size] == 0,
        forall|x: int, y: int| 0 <= x < size && 0 <= y < size ==> 0 <= #[trigger] g(x, y) < size,
        mass_sum(xd, size) <= PROB_ONE,
        mass_sum(yd, size) <= PROB_ONE,
    ensures
        PROB_ONE * mass_sum(conv2_dist(xd, yd, g, size), size) <= mass_sum(xd, size) * mass_sum(
            yd,
            size,
        ),
        mass_sum(xd, size) * mass_sum(yd, size) < PROB_ONE * mass_sum(
            conv2_dist(xd, yd, g, size),
            size,
        ) + PROB_ONE * size * size,
        conv2_dist(xd, yd, g, size)[size] == 0,
{
    let oi = PROB_ONE as int;
    let mx = mass_sum(xd, size);
    let my = mass_sum(yd, size);
    lemma_mass_sum_nonneg(xd, size);
    lemma_mass_sum_nonneg(yd, size);
    assert forall|x: int| 0 <= x < size implies (#[trigger] xd[x]) <= PROB_ONE by {
        lemma_mass_le_sum(xd, x, size);
    }
    assert forall|y: int| 0 <= y < size implies (#[trigger] yd[y]) <= PROB_ONE by {
        lemma_mass_le_sum(yd, y, size);
    }
    lemma_grand_total_bounds(xd, yd, size, size);
    lemma_conv2_buckets_total(xd, yd, g, size, size);
    let grand = grand_total(xd, yd, size, size);
    assert(oi * grand <= mx * my);
    vstd::arithmetic::mul::lemma_mul_upper_bound(mx, oi, my, oi);
    assert(grand * oi <= oi * oi) by {
        vstd::arithmetic::mul::lemma_mul_is_commutative(oi, grand);
    }
    vstd::arithmetic::mul::lemma_mul_inequality_converse(grand, oi, oi);
    lemma_conv2_dist_mass(xd, yd, g, size, size);
    assert forall|x: int, y: int| 0 <= x < size && 0 <= y < size
        implies (#[trigger] g(x, y)) != size by {}
    lemma_conv2_sum_bucket_zero(xd, yd, g, size, size, size);
    assert(conv2_dist(xd, yd, g, size)[size] as int == capped(xd[size] + yd[size] + 0));
}

/// Undefined-mass additivity: when an arity-2 operator's value function
/// stays inside the domain, the output's undefined mass is exactly the sum
/// of the two inputs' undefined masses, deliberately not renormalized,
/// even when that sum exceeds one full unit of mass.
pub proof fn theorem_undefined_mass_additive(
    xd: Seq<u64>,
    yd: Seq<u64>,
    g: spec_fn(int, int) -> int,
    size: int,
)
    requires
        size >= 0,
        forall|x: int, y: int| 0 <= x < size && 0 <= y < size ==> 0 <= #[trigger] g(x, y) < size,
        xd[size] + yd[size] <= PROB_CAP,
        xd[size] + yd[size] >= 0,
    ensures
        conv2_dist(xd, yd, g, size)[size] == xd[size] + yd[size],
{
    assert forall|x: int, y: int| 0 <= x < size && 0 <= y < size
        implies (#[trigger] g(x, y)) != size by {}
    lemma_conv2_sum_bucket_zero(xd, yd, g, size, size, size);
    assert(conv2_dist(xd, yd, g, size)[size] as int == capped(xd[size] + yd[size] + 0));
}

/// Clamping: the increment operator applied to a one-hot distribution at
/// the top domain value `size - 1` places all mass in the undefined
/// bucket, neither wrapping nor failing.
pub proof fn theorem_increment_clamps(size: int)
    requires
        size >= 1,
    ensures
        conv1_dist(one_hot(size, size - 1), inc_bucket(size), size) == one_hot(size, size),
{
    let xd = one_hot(size, size - 1);
    let g = inc_bucket(size);
    let d = conv1_dist(xd, g, size);
    lemma_conv1_sum_one_hot(size, size - 1, g, size, size);
    assert(d[size] as int == capped(0 + conv1_sum(xd, g, size, size)));
    assert(d[size] == PROB_ONE);
    assert forall|b: int| 0 <= b < size implies d[b] == 0 by {
        lemma_conv1_sum_one_hot(size, size - 1, g, b, size);
        assert(g(size - 1) == size);
        assert(d[b] as int == capped(0 + conv1_sum(xd, g, b, size)));
    }
    assert(d =~= one_hot(size, size));
}

/// The arity-1 convolution of a one-hot distribution puts the whole unit
/// of mass wherever the bucket map sends the hot value.
proof fn lemma_conv1_sum_one_hot(size: int, v: int, g: spec_fn(int) -> int, b: int, n: int)
    requires
        n <= size,
    ensures
        conv1_sum(one_hot(size, v), g, b, n) == (if 0 <= v < n && g(v) == b {
            PROB_ONE as int
        } else {
            0int
        }),
    decreases n,
{
    if n > 0 {
        lemma_conv1_sum_one_hot(size, v, g, b, n - 1);
    }
}

/// The exact fixed-point mass a pair of first- and second-input values
/// spreads over the first `nz` values of the third input, summed over the
/// first `n` second-input values.
pub open spec fn row3_total(px: int, yd: Seq<u64>, zd: Seq<u64>, n: int, nz: int) -> int
    decreases n,
{
    if n <= 0 {
        0
    } else {
        row3_total(px, yd, zd, n - 1, nz) + row_total(
            pmul_spec(px, yd[n - 1] as int),
            zd,
            nz,
        )
    }
}

/// The exact fixed-point mass the first `n` first-input values spread over
/// the other two inputs.
pub open spec fn grand3_total(
    xd: Seq<u64>,
    yd: Seq<u64>,
    zd: Seq<u64>,
    n: int,
    ny: int,
    nz: int,
) -> int
    decreases n,
{
    if n <= 0 {
        0
    } else {
        grand3_total(xd, yd, zd, n - 1, ny, nz) + row3_total(xd[n - 1] as int, yd, zd, ny, nz)
    }
}

/// One arity-3 line's mass summed over the first `m` buckets.
pub open spec fn conv3_cell_buckets(
    pxy: int,
    zd: Seq<u64>,
    g: spec_fn(int, int, int) -> int,
    x: int,
    y: int,
    m: int,
    n: int,
) -> int
    decreases m,
{
    if m <= 0 {
        0
    } else {
        conv3_cell_buckets(pxy, zd, g, x, y, m - 1, n) + conv3_cell(pxy, zd, g, x, y, m - 1, n)
    }
}

/// One arity-3 plane's mass summed over the first `m` buckets.
pub open spec fn conv3_row_buckets(
    px: int,
    yd: Seq<u64>,
    zd: Seq<u64>,
    g: spec_fn(int, int, int) -> int,
    x: int,
    m: int,
    n: int,
    nz: int,
) -> int
    decreases m,
{
    if m <= 0 {
        0
    } else {
        conv3_row_buckets(px, yd, zd, g, x, m - 1, n, nz) + conv3_row(px, yd, zd, g, x, m - 1, n, nz)
    }
}

/// The arity-3 convolution mass summed over the first `m` buckets.
pub open spec fn conv3_buckets(
    xd: Seq<u64>,
    yd: Seq<u64>,
    zd: Seq<u64>,
    g: spec_fn(int, int, int) -> int,
    m: int,
    n: int,
    ny: int,
    nz: int,
) -> int
    decreases m,
{
    if m <= 0 {
        0
    } else {
        conv3_buckets(xd, yd, zd, g, m - 1, n, ny, nz) + conv3_sum(xd, yd, zd, g, m - 1, n, ny, nz)
    }
}

/// With no third-input values, no bucket of a line holds any mass.
proof fn lemma_conv3_cell_buckets_empty(
    pxy: int,
    zd: Seq<u64>,
    g: spec_fn(int, int, int) -> int,
    x: int,
    y: int,
    m: int,
    n: int,
)
    requires
        n <= 0,
    ensures
        conv3_cell_buckets(pxy, zd, g, x, y, m, n) == 0,
    decreases m,
{
    if m > 0 {
        lemma_conv3_cell_buckets_empty(pxy, zd, g, x, y, m - 1, n);
    }
}

/// Adding third-input value `n - 1` adds one product to exactly one
/// bucket of the line.
proof fn lemma_conv3_cell_buckets_step(
    pxy: int,
    zd: Seq<u64>,
    g: spec_fn(int, int, int) -> int,
    x: int,
    y: int,
    m: int,
    n: int,
)
    requires
        n >= 1,
    ensures
        conv3_cell_buckets(pxy, zd, g, x, y, m, n) == conv3_cell_buckets(pxy, zd, g, x, y, m, n - 1)
            + (if 0 <= g(x, y, n - 1) < m {
            pmul_spec(pxy, zd[n - 1] as int)
        } else {
            0int
        }),
    decreases m,
{
    if m > 0 {
        lemma_conv3_cell_buckets_step(pxy, zd, g, x, y, m - 1, n);
        assert(conv3_cell(pxy, zd, g, x, y, m - 1, n) == conv3_cell(pxy, zd, g, x, y, m - 1, n - 1)
            + (if g(x, y, n - 1) == m - 1 {
            pmul_spec(pxy, zd[n - 1] as int)
        } else {
            0int
        }));
        assert(conv3_cell_buckets(pxy, zd, g, x, y, m, n) == conv3_cell_buckets(
            pxy, zd, g, x, y, m - 1, n) + conv3_cell(pxy, zd, g, x, y, m - 1, n));
        assert(conv3_cell_buckets(pxy, zd, g, x, y, m, n - 1) == conv3_cell_buckets(
            pxy, zd, g, x, y, m - 1, n - 1) + conv3_cell(pxy, zd, g, x, y, m - 1, n - 1));
    }
}

/// Over an in-domain bucket map, a line conserves its mass exactly.
proof fn lemma_conv3_cell_buckets_total(
    pxy: int,
    zd: Seq<u64>,
    g: spec_fn(int, int, int) -> int,
    x: int,
    y: int,
    size: int,
    n: int,
)
    requires
        forall|z: int| 0 <= z < n ==> 0 <= #[trigger] g(x, y, z) < size,
    ensures
        conv3_cell_buckets(pxy, zd, g, x, y, size, n) == row_total(pxy, zd, n),
    decreases n,
{
    if n <= 0 {
        lemma_conv3_cell_buckets_empty(pxy, zd, g, x, y, size, n);
    }
    if n > 0 {
        lemma_conv3_cell_buckets_total(pxy, zd, g, x, y, size, n - 1);
        lemma_conv3_cell_buckets_step(pxy, zd, g, x, y, size, n);
        assert(0 <= g(x, y, n - 1) < size);
    }
}

/// With no second-input values, no bucket of a plane holds any mass.
proof fn lemma_conv3_row_buckets_empty(
    px: int,
    yd: Seq<u64>,
    zd: Seq<u64>,
    g: spec_fn(int, int, int) -> int,
    x: int,
    m: int,
    n: int,
    nz: int,
)
    requires
        n <= 0,
    ensures
        conv3_row_buckets(px, yd, zd, g, x, m, n, nz) == 0,
    decreases m,
{
    if m > 0 {
        lemma_conv3_row_buckets_empty(px, yd, zd, g, x, m - 1, n, nz);
    }
}

/// Adding second-input value `n - 1` adds exactly its line's bucket
/// totals to the plane.
proof fn lemma_conv3_row_buckets_step(
    px: int,
    yd: Seq<u64>,
    zd: Seq<u64>,
    g: spec_fn(int, int, int) -> int,
    x: int,
    m: int,
    n: int,
    nz: int,
)
    requires
        n >= 1,
    ensures
        conv3_row_buckets(px, yd, zd, g, x, m, n, nz) == conv3_row_buckets(
            px, yd, zd, g, x, m, n - 1, nz)
            + conv3_cell_buckets(pmul_spec(px, yd[n - 1] as int), zd, g, x, n - 1, m, nz),
    decreases m,
{
    if m > 0 {
        lemma_conv3_row_buckets_step(px, yd, zd, g, x, m - 1, n, nz);
        assert(conv3_row(px, yd, zd, g, x, m - 1, n, nz) == conv3_row(
            px, yd, zd, g, x, m - 1, n - 1, nz)
            + conv3_cell(pmul_spec(px, yd[n - 1] as int), zd, g, x, n - 1, m - 1, nz));
        assert(conv3_row_buckets(px, yd, zd, g, x, m, n, nz) == conv3_row_buckets(
            px, yd, zd, g, x, m - 1, n, nz) + conv3_row(px, yd, zd, g, x, m - 1, n, nz));
        assert(conv3_row_buckets(px, yd, zd, g, x, m, n - 1, nz) == conv3_row_buckets(
            px, yd, zd, g, x, m - 1, n - 1, nz) + conv3_row(px, yd, zd, g, x, m - 1, n - 1, nz));
        assert(conv3_cell_buckets(pmul_spec(px, yd[n - 1] as int), zd, g, x, n - 1, m, nz)
            == conv3_cell_buckets(pmul_spec(px, yd[n - 1] as int), zd, g, x, n - 1, m - 1, nz)
            + conv3_cell(pmul_spec(px, yd[n - 1] as int), zd, g, x, n - 1, m - 1, nz));
    }
}

/// Over an in-domain bucket map, a plane conserves its mass exactly.
proof fn lemma_conv3_row_buckets_total(
    px: int,
    yd: Seq<u64>,
    zd: Seq<u64>,
    g: spec_fn(int, int, int) -> int,
    x: int,
    size: int,
    n: int,
)
    requires
        forall|y: int, z: int| 0 <= y < n && 0 <= z < size ==> 0 <= #[trigger] g(x, y, z) < size,
    ensures
        conv3_row_buckets(px, yd, zd, g, x, size, n, size) == row3_total(px, yd, zd, n, size),
    decreases n,
{
    if n <= 0 {
        lemma_conv3_row_buckets_empty(px, yd, zd, g, x, size, n, size);
    }
    if n > 0 {
        lemma_conv3_row_buckets_total(px, yd, zd, g, x, size, n - 1);
        lemma_conv3_row_buckets_step(px, yd, zd, g, x, size, n, size);
        lemma_conv3_cell_buckets_total(
            pmul_spec(px, yd[n - 1] as int),
            zd,
            g,
            x,
            n - 1,
            size,
            size,
        );
    }
}

/// With no first-input values, no bucket holds any arity-3 mass.
proof fn lemma_conv3_buckets_empty(
    xd: Seq<u64>,
    yd: Seq<u64>,
    zd: Seq<u64>,
    g: spec_fn(int, int, int) -> int,
    m: int,
    n: int,
    ny: int,
    nz: int,
)
    requires
        n <= 0,
    ensures
        conv3_buckets(xd, yd, zd, g, m, n, ny, nz) == 0,
    decreases m,
{
    if m > 0 {
        lemma_conv3_buckets_empty(xd, yd, zd, g, m - 1, n, ny, nz);
    }
}

/// Adding first-input value `n - 1` adds exactly its plane's bucket
/// totals.
proof fn lemma_conv3_buckets_step(
    xd: Seq<u64>,
    yd: Seq<u64>,
    zd: Seq<u64>,
    g: spec_fn(int, int, int) -> int,
    m: int,
    n: int,
    ny: int,
    nz: int,
)
    requires
        n >= 1,
    ensures
        conv3_buckets(xd, yd, zd, g, m, n, ny, nz) == conv3_buckets(xd, yd, zd, g, m, n - 1, ny, nz)
            + conv3_row_buckets(xd[n - 1] as int, yd, zd, g, n - 1, m, ny, nz),
    decreases m,
{
    if m > 0 {
        lemma_conv3_buckets_step(xd, yd, zd, g, m - 1, n, ny, nz);
        assert(conv3_sum(xd, yd, zd, g, m - 1, n, ny, nz) == conv3_sum(
            xd, yd, zd, g, m - 1, n - 1, ny, nz)
            + conv3_row(xd[n - 1] as int, yd, zd, g, n - 1, m - 1, ny, nz));
        assert(conv3_buckets(xd, yd, zd, g, m, n, ny, nz) == conv3_buckets(
            xd, yd, zd, g, m - 1, n, ny, nz) + conv3_sum(xd, yd, zd, g, m - 1, n, ny, nz));
        assert(conv3_buckets(xd, yd, zd, g, m, n - 1, ny, nz) == conv3_buckets(
            xd, yd, zd, g, m - 1, n - 1, ny, nz) + conv3_sum(xd, yd, zd, g, m - 1, n - 1, ny, nz));
        assert(conv3_row_buckets(xd[n - 1] as int, yd, zd, g, n - 1, m, ny, nz)
            == conv3_row_buckets(xd[n - 1] as int, yd, zd, g, n - 1, m - 1, ny, nz)
            + conv3_row(xd[n - 1] as int, yd, zd, g, n - 1, m - 1, ny, nz));
    }
}

/// Over an in-domain bucket map, the arity-3 convolution conserves the
/// exact fixed-point triple total.
proof fn lemma_conv3_buckets_total(
    xd: Seq<u64>,
    yd: Seq<u64>,
    zd: Seq<u64>,
    g: spec_fn(int, int, int) -> int,
    size: int,
    n: int,
)
    requires
        forall|x: int, y: int, z: int|
            0 <= x < n && 0 <= y < size && 0 <= z < size ==> 0 <= #[trigger] g(x, y, z) < size,
    ensures
        conv3_buckets(xd, yd, zd, g, size, n, size, size) == grand3_total(
            xd, yd, zd, n, size, size),
    decreases n,
{
    if n <= 0 {
        lemma_conv3_buckets_empty(xd, yd, zd, g, size, n, size, size);
    }
    if n > 0 {
        lemma_conv3_buckets_total(xd, yd, zd, g, size, n - 1);
        lemma_conv3_buckets_step(xd, yd, zd, g, size, n, size, size);
        lemma_conv3_row_buckets_total(xd[n - 1] as int, yd, zd, g, n - 1, size, size);
    }
}

/// Partial bucket totals of the arity-3 convolution are non-negative.
proof fn lemma_conv3_buckets_nonneg(
    xd: Seq<u64>,
    yd: Seq<u64>,
    zd: Seq<u64>,
    g: spec_fn(int, int, int) -> int,
    m: int,
    n: int,
    ny: int,
    nz: int,
)
    ensures
        conv3_buckets(xd, yd, zd, g, m, n, ny, nz) >= 0,
    decreases m,
{
    if m > 0 {
        lemma_conv3_buckets_nonneg(xd, yd, zd, g, m - 1, n, ny, nz);
        lemma_conv3_sum_nonneg(xd, yd, zd, g, m - 1, n, ny, nz);
    }
}

/// One bucket's arity-3 mass never exceeds the total over buckets that
/// include it.
proof fn lemma_conv3_bucket_le(
    xd: Seq<u64>,
    yd: Seq<u64>,
    zd: Seq<u64>,
    g: spec_fn(int, int, int) -> int,
    b: int,
    m: int,
    n: int,
    ny: int,
    nz: int,
)
    requires
        0 <= b < m,
    ensures
        conv3_sum(xd, yd, zd, g, b, n, ny, nz) <= conv3_buckets(xd, yd, zd, g, m, n, ny, nz),
    decreases m,
{
    lemma_conv3_buckets_nonneg(xd, yd, zd, g, m - 1, n, ny, nz);
    if b < m - 1 {
        lemma_conv3_bucket_le(xd, yd, zd, g, b, m - 1, n, ny, nz);
        lemma_conv3_sum_nonneg(xd, yd, zd, g, m - 1, n, ny, nz);
    }
}

/// A bucket no input triple maps to collects no line mass.
proof fn lemma_conv3_cell_bucket_zero(
    pxy: int,
    zd: Seq<u64>,
    g: spec_fn(int, int, int) -> int,
    x: int,
    y: int,
    b: int,
    n: int,
)
    requires
        forall|z: int| 0 <= z < n ==> #[trigger] g(x, y, z) != b,
    ensures
        conv3_cell(pxy, zd, g, x, y, b, n) == 0,
    decreases n,
{
    if n > 0 {
        lemma_conv3_cell_bucket_zero(pxy, zd, g, x, y, b, n - 1);
    }
}

/// A bucket no input triple maps to collects no plane mass.
proof fn lemma_conv3_row_bucket_zero(
    px: int,
    yd: Seq<u64>,
    zd: Seq<u64>,
    g: spec_fn(int, int, int) -> int,
    x: int,
    b: int,
    n: int,
    nz: int,
)
    requires
        forall|y: int, z: int| 0 <= y < n && 0 <= z < nz ==> #[trigger] g(x, y, z) != b,
    ensures
        conv3_row(px, yd, zd, g, x, b, n, nz) == 0,
    decreases n,
{
    if n > 0 {
        lemma_conv3_row_bucket_zero(px, yd, zd, g, x, b, n - 1, nz);
        lemma_conv3_cell_bucket_zero(
            pmul_spec(px, yd[n - 1] as int), zd, g, x, n - 1, b, nz);
    }
}

/// A bucket no input triple maps to collects no arity-3 convolution mass.
proof fn lemma_conv3_sum_bucket_zero(
    xd: Seq<u64>,
    yd: Seq<u64>,
    zd: Seq<u64>,
    g: spec_fn(int, int, int) -> int,
    b: int,
    n: int,
    ny: int,
    nz: int,
)
    requires
        forall|x: int, y: int, z: int|
            0 <= x < n && 0 <= y < ny && 0 <= z < nz ==> #[trigger] g(x, y, z) != b,
    ensures
        conv3_sum(xd, yd, zd, g, b, n, ny, nz) == 0,
    decreases n,
{
    if n > 0 {
        lemma_conv3_sum_bucket_zero(xd, yd, zd, g, b, n - 1, ny, nz);
        lemma_conv3_row_bucket_zero(xd[n - 1] as int, yd, zd, g, n - 1, b, ny, nz);
    }
}

/// A plane's exact fixed-point total tracks the triple product of its
/// input mass with the other two total masses, up to one extra step per
/// pair of second- and third-input values.
proof fn lemma_row3_total_bounds(px: int, yd: Seq<u64>, zd: Seq<u64>, n: int, nz: int)
    requires
        nz >= 0,
        0 <= px <= PROB_ONE,
        forall|y: int| 0 <= y < n ==> (#[trigger] yd[y]) <= PROB_ONE,
        forall|z: int| 0 <= z < nz ==> (#[trigger] zd[z]) <= PROB_ONE,
        0 <= mass_sum(zd, nz) <= PROB_ONE,
    ensures
        PROB_ONE * PROB_ONE * row3_total(px, yd, zd, n, nz) <= px * mass_sum(yd, n) * mass_sum(
            zd, nz),
        px * mass_sum(yd, n) * mass_sum(zd, nz) < PROB_ONE * PROB_ONE * row3_total(
            px, yd, zd, n, nz) + PROB_ONE * PROB_ONE * n * (nz + 1) || n <= 0,
        row3_total(px, yd, zd, n, nz) >= 0,
    decreases n,
{
    let oi = PROB_ONE as int;
    let mz = mass_sum(zd, nz);
    if n > 0 {
        lemma_row3_total_bounds(px, yd, zd, n - 1, nz);
        let py = yd[n - 1] as int;
        let pxy = pmul_spec(px, py);
        lemma_pmul_floor_bounds(px, py);
        lemma_pmul_spec_bounds(px, py);
        lemma_row_total_bounds(pxy, zd, nz);
        let rt = row_total(pxy, zd, nz);
        // oi * oi * rt vs px * py * mz
        assert(oi * (oi * rt) <= oi * (pxy * mz)) by {
            vstd::arithmetic::mul::lemma_mul_inequality(oi * rt, pxy * mz, oi);
            vstd::arithmetic::mul::lemma_mul_is_commutative(oi * rt, oi);
            vstd::arithmetic::mul::lemma_mul_is_commutative(pxy * mz, oi);
        }
        assert(oi * (pxy * mz) == (oi * pxy) * mz) by (nonlinear_arith);
        assert((oi * pxy) * mz <= (px * py) * mz) by {
            vstd::arithmetic::mul::lemma_mul_inequality(oi * pxy, px * py, mz);
        }
        // lower direction
        assert(pxy * mz < oi * rt + oi * nz || nz <= 0);
        assert((px * py) * mz <= (oi * pxy) * mz + oi * mz) by {
            assert(px * py < oi * pxy + oi);
            vstd::arithmetic::mul::lemma_mul_inequality(px * py, oi * pxy + oi, mz);
            assert((oi * pxy + oi) * mz == (oi * pxy) * mz + oi * mz) by (nonlinear_arith);
        }
        if nz > 0 {
            assert(oi * (pxy * mz) < oi * (oi * rt + oi * nz)) by {
                vstd::arithmetic::mul::lemma_mul_strict_inequality(
                    pxy * mz, oi * rt + oi * nz, oi);
                vstd::arithmetic::mul::lemma_mul_is_commutative(pxy * mz, oi);
                vstd::arithmetic::mul::lemma_mul_is_commutative(oi * rt + oi * nz, oi);
            }
        } else {
            assert(mz == 0);
            assert(pxy * mz == 0) by (nonlinear_arith)
                requires mz == 0;
            assert(rt == 0);
        }
        assert(oi * (oi * rt + oi * nz) == oi * (oi * rt) + oi * (oi * nz)) by (nonlinear_arith);
        assert(oi * mz <= oi * oi) by {
            vstd::arithmetic::mul::lemma_mul_inequality(mz, oi, oi);
            vstd::arithmetic::mul::lemma_mul_is_commutative(mz, oi);
            vstd::arithmetic::mul::lemma_mul_is_commutative(oi, oi);
        }
        // algebraic regrouping of the goal terms
        assert(px * mass_sum(yd, n) * mz == px * mass_sum(yd, n - 1) * mz + (px * py) * mz)
            by (nonlinear_arith)
            requires mass_sum(yd, n) == mass_sum(yd, n - 1) + py;
        assert(oi * oi * row3_total(px, yd, zd, n, nz) == oi * oi * row3_total(
            px, yd, zd, n - 1, nz) + oi * (oi * rt)) by (nonlinear_arith)
            requires row3_total(px, yd, zd, n, nz) == row3_total(px, yd, zd, n - 1, nz) + rt;
        assert(oi * oi * n * (nz + 1) == oi * oi * (n - 1) * (nz + 1) + oi * oi * (nz + 1))
            by (nonlinear_arith);
        assert(oi * (oi * nz) + oi * oi == oi * oi * (nz + 1)) by (nonlinear_arith);
        if n - 1 <= 0 {
            assert(px * mass_sum(yd, n - 1) * mz == 0) by (nonlinear_arith)
                requires mass_sum(yd, n - 1) == 0;
            assert(row3_total(px, yd, zd, n - 1, nz) == 0);
        }
    }
}

/// The grand fixed-point triple total tracks the product of the three
/// input masses, up to one extra step per triple of input values.
proof fn lemma_grand3_total_bounds(
    xd: Seq<u64>,
    yd: Seq<u64>,
    zd: Seq<u64>,
    n: int,
    ny: int,
    nz: int,
)
    requires
        ny >= 0,
        nz >= 0,
        forall|x: int| 0 <= x < n ==> (#[trigger] xd[x]) <= PROB_ONE,
        forall|y: int| 0 <= y < ny ==> (#[trigger] yd[y]) <= PROB_ONE,
        forall|z: int| 0 <= z < nz ==> (#[trigger] zd[z]) <= PROB_ONE,
        0 <= mass_sum(yd, ny) <= PROB_ONE,
        0 <= mass_sum(zd, nz) <= PROB_ONE,
    ensures
        PROB_ONE * PROB_ONE * grand3_total(xd, yd, zd, n, ny, nz) <= mass_sum(xd, n) * mass_sum(
            yd, ny) * mass_sum(zd, nz),
        mass_sum(xd, n) * mass_sum(yd, ny) * mass_sum(zd, nz) < PROB_ONE * PROB_ONE * grand3_total(
            xd, yd, zd, n, ny, nz) + PROB_ONE * PROB_ONE * n * ny * (nz + 1) || n <= 0 || ny <= 0,
        grand3_total(xd, yd, zd, n, ny, nz) >= 0,
    decreases n,
{
    let oi = PROB_ONE as int;
    let my = mass_sum(yd, ny);
    let mz = mass_sum(zd, nz);
    if n > 0 {
        lemma_grand3_total_bounds(xd, yd, zd, n - 1, ny, nz);
        let px = xd[n - 1] as int;
        lemma_row3_total_bounds(px, yd, zd, ny, nz);
        let r3 = row3_total(px, yd, zd, ny, nz);
        assert(mass_sum(xd, n) * my * mz == mass_sum(xd, n - 1) * my * mz + px * my * mz)
            by (nonlinear_arith)
            requires mass_sum(xd, n) == mass_sum(xd, n - 1) + px;
        assert(oi * oi * grand3_total(xd, yd, zd, n, ny, nz) == oi * oi * grand3_total(
            xd, yd, zd, n - 1, ny, nz) + oi * oi * r3) by (nonlinear_arith)
            requires grand3_total(xd, yd, zd, n, ny, nz) == grand3_total(
                xd, yd, zd, n - 1, ny, nz) + r3;
        assert(oi * oi * n * ny * (nz + 1) == oi * oi * (n - 1) * ny * (nz + 1) + oi * oi * ny * (
        nz + 1)) by (nonlinear_arith);
        if n - 1 <= 0 {
            assert(mass_sum(xd, n - 1) * my * mz == 0) by (nonlinear_arith)
                requires mass_sum(xd, n - 1) == 0;
            assert(grand3_total(xd, yd, zd, n - 1, ny, nz) == 0);
        }
    }
}

/// The defined output buckets of the arity-3 result hold exactly the raw
/// convolution masses when nothing clamps.
proof fn lemma_conv3_dist_mass(
    xd: Seq<u64>,
    yd: Seq<u64>,
    zd: Seq<u64>,
    g: spec_fn(int, int, int) -> int,
    size: int,
    m: int,
)
    requires
        size >= 0,
        m <= size,
        xd[size] == 0,
        yd[size] == 0,
        zd[size] == 0,
        conv3_buckets(xd, yd, zd, g, size, size, size, size) <= PROB_CAP,
    ensures
        mass_sum(conv3_dist(xd, yd, zd, g, size), m) == conv3_buckets(
            xd, yd, zd, g, m, size, size, size),
    decreases m,
{
    if m > 0 {
        lemma_conv3_dist_mass(xd, yd, zd, g, size, m - 1);
        lemma_conv3_sum_nonneg(xd, yd, zd, g, m - 1, size, size, size);
        lemma_conv3_bucket_le(xd, yd, zd, g, m - 1, size, size, size, size);
        assert(undef_base(m - 1, size, xd[size] + yd[size] + zd[size]) == 0);
        assert(conv3_dist(xd, yd, zd, g, size)[m - 1] as int == capped(
            conv3_sum(xd, yd, zd, g, m - 1, size, size, size),
        ));
    }
}

/// Probability conservation, three inputs: with all inputs fully defined
/// and an operator whose value function stays inside the domain, the
/// defined output mass is the fixed-point product of the three defined
/// input masses, up to the rounding the two chained fixed-point products
/// lose, and the undefined bucket stays empty.
pub proof fn theorem_conservation_3(
    xd: Seq<u64>,
    yd: Seq<u64>,
    zd: Seq<u64>,
    g: spec_fn(int, int, int) -> int,
    size: int,
)
    requires
        size >= 1,
        xd.len() == size + 1,
        yd.len() == size + 1,
        zd.len() == size + 1,
        xd[size] == 0,
        yd[size] == 0,
        zd[size] == 0,
        forall|x: int, y: int, z: int|
            0 <= x < size && 0 <= y < size && 0 <= z < size ==> 0 <= #[trigger] g(x, y, z) < size,
        mass_sum(xd, size) <= PROB_ONE,
        mass_sum(yd, size) <= PROB_ONE,
        mass_sum(zd, size) <= PROB_ONE,
    ensures
        PROB_ONE * PROB_ONE * mass_sum(conv3_dist(xd, yd, zd, g, size), size) <= mass_sum(
            xd, size) * mass_sum(yd, size) * mass_sum(zd, size),
        mass_sum(xd, size) * mass_sum(yd, size) * mass_sum(zd, size) < PROB_ONE * PROB_ONE
            * mass_sum(conv3_dist(xd, yd, zd, g, size), size) + PROB_ONE * PROB_ONE * size * size
            * (size + 1),
        conv3_dist(xd, yd, zd, g, size)[size] == 0,
{
    let oi = PROB_ONE as int;
    let mx = mass_sum(xd, size);
    let my = mass_sum(yd, size);
    let mz = mass_sum(zd, size);
    lemma_mass_sum_nonneg(xd, size);
    lemma_mass_sum_nonneg(yd, size);
    lemma_mass_sum_nonneg(zd, size);
    assert forall|x: int| 0 <= x < size implies (#[trigger] xd[x]) <= PROB_ONE by {
        lemma_mass_le_sum(xd, x, size);
    }
    assert forall|y: int| 0 <= y < size implies (#[trigger] yd[y]) <= PROB_ONE by {
        lemma_mass_le_sum(yd, y, size);
    }
    assert forall|z: int| 0 <= z < size implies (#[trigger] zd[z]) <= PROB_ONE by {
        lemma_mass_le_sum(zd, z, size);
    }
    lemma_grand3_total_bounds(xd, yd, zd, size, size, size);
    lemma_conv3_buckets_total(xd, yd, zd, g, size, size);
    let grand = grand3_total(xd, yd, zd, size, size, size);
    assert(mx * my * mz <= oi * oi * oi) by {
        vstd::arithmetic::mul::lemma_mul_upper_bound(mx, oi, my, oi);
        vstd::arithmetic::mul::lemma_mul_nonnegative(mx, my);
        vstd::arithmetic::mul::lemma_mul_inequality(mx * my, oi * oi, mz);
        assert((oi * oi) * mz <= (oi * oi) * oi) by (nonlinear_arith)
            requires 0 <= mz <= oi;
    }
    assert(grand <= oi) by {
        assert(oi * oi * grand <= oi * oi * oi);
        assert(grand * (oi * oi) <= oi * (oi * oi)) by (nonlinear_arith)
            requires oi * oi * grand <= oi * oi * oi;
        vstd::arithmetic::mul::lemma_mul_inequality_converse(grand, oi, oi * oi);
    }
    lemma_conv3_dist_mass(xd, yd, zd, g, size, size);
    assert forall|x: int, y: int, z: int| 0 <= x < size && 0 <= y < size && 0 <= z < size
        implies (#[trigger] g(x, y, z)) != size by {}
    lemma_conv3_sum_bucket_zero(xd, yd, zd, g, size, size, size, size);
    assert(conv3_dist(xd, yd, zd, g, size)[size] as int == capped(
        xd[size] + yd[size] + zd[size] + 0,
    ));
}

/// Two bucket maps that agree wherever the input carries mass produce the
/// same arity-1 convolution mass.
proof fn lemma_conv1_sum_zero_mass_congruent(
    xd: Seq<u64>,
    g1: spec_fn(int) -> int,
    g2: spec_fn(int) -> int,
    b: int,
    n: int,
)
    requires
        forall|x: int| 0 <= x < n ==> #[trigger] g1(x) == g2(x) || xd[x] == 0,
    ensures
        conv1_sum(xd, g1, b, n) == conv1_sum(xd, g2, b, n),
    decreases n,
{
    if n > 0 {
        lemma_conv1_sum_zero_mass_congruent(xd, g1, g2, b, n - 1);
    }
}

/// Probability conservation for the negation operator: a fully defined
/// input keeps its defined mass.
pub proof fn theorem_conservation_not(cd: ComputedDistributions, x: usize)
    requires
        cd.size_spec() >= 2,
        cd.dist(x as int).len() == cd.size_spec() + 1,
        cd.dist(x as int)[cd.size_spec()] == 0,
        mass_sum(cd.dist(x as int), cd.size_spec()) <= PROB_CAP,
    ensures
        mass_sum(op_output(cd, Operator::Not(x)), cd.size_spec()) == mass_sum(
            cd.dist(x as int),
            cd.size_spec(),
        ),
        op_output(cd, Operator::Not(x))[cd.size_spec()] == 0,
{
    let size = cd.size_spec();
    let g = not_bucket(size);
    assert forall|v: int| 0 <= v < size implies 0 <= #[trigger] g(v) < size by {
        assert(g(v) == clamp_bucket(not_val(v), size));
    }
    theorem_conservation_1(cd.dist(x as int), g, size);
}

/// Probability conservation for the increment operator, away from the top
/// domain value: when the input is fully defined and carries no mass at
/// `size - 1` (the one value whose successor clamps), the defined output
/// mass equals the defined input mass.
pub proof fn theorem_conservation_increment(cd: ComputedDistributions, x: usize)
    requires
        cd.size_spec() >= 1,
        cd.dist(x as int).len() == cd.size_spec() + 1,
        cd.dist(x as int)[cd.size_spec()] == 0,
        cd.dist(x as int)[cd.size_spec() - 1] == 0,
        mass_sum(cd.dist(x as int), cd.size_spec()) <= PROB_CAP,
    ensures
        mass_sum(op_output(cd, Operator::Increment(x)), cd.size_spec()) == mass_sum(
            cd.dist(x as int),
            cd.size_spec(),
        ),
        op_output(cd, Operator::Increment(x))[cd.size_spec()] == 0,
{
    let size = cd.size_spec();
    let xd = cd.dist(x as int);
    let g = inc_bucket(size);
    // On every value that carries mass, increment stays inside the
    // domain; redirect the one clamping value (it carries no mass).
    let g2 = (|v: int| if v == size - 1 { 0int } else { clamp_bucket(v + 1, size) });
    assert forall|v: int| 0 <= v < size implies #[trigger] g(v) == g2(v) || xd[v] == 0 by {
        assert(g(v) == clamp_bucket(v + 1, size));
    }
    assert forall|v: int| 0 <= v < size implies 0 <= #[trigger] g2(v) < size by {}
    assert forall|b: int| 0 <= b < size + 1
        implies conv1_dist(xd, g, size)[b] == conv1_dist(xd, g2, size)[b] by {
        lemma_conv1_sum_zero_mass_congruent(xd, g, g2, b, size);
    }
    assert(conv1_dist(xd, g, size) =~= conv1_dist(xd, g2, size));
    theorem_conservation_1(xd, g2, size);
}

/// Probability conservation for the conjunction operator: the defined
/// output mass is the fixed-point product of the defined input masses, up
/// to the rounding bound of the general two-input law; and its undefined
/// output mass is exactly the sum of the undefined input masses.
pub proof fn theorem_conservation_and(cd: ComputedDistributions, x: usize, y: usize)
    requires
        cd.size_spec() >= 2,
        cd.dist(x as int).len() == cd.size_spec() + 1,
        cd.dist(y as int).len() == cd.size_spec() + 1,
        cd.dist(x as int)[cd.size_spec()] == 0,
        cd.dist(y as int)[cd.size_spec()] == 0,
        mass_sum(cd.dist(x as int), cd.size_spec()) <= PROB_ONE,
        mass_sum(cd.dist(y as int), cd.size_spec()) <= PROB_ONE,
    ensures
        PROB_ONE * mass_sum(op_output(cd, Operator::And(x, y)), cd.size_spec()) <= mass_sum(
            cd.dist(x as int),
            cd.size_spec(),
        ) * mass_sum(cd.dist(y as int), cd.size_spec()),
        mass_sum(cd.dist(x as int), cd.size_spec()) * mass_sum(cd.dist(y as int), cd.size_spec())
            < PROB_ONE * mass_sum(op_output(cd, Operator::And(x, y)), cd.size_spec()) + PROB_ONE
            * cd.size_spec() * cd.size_spec(),
        op_output(cd, Operator::And(x, y))[cd.size_spec()] == 0,
{
    let size = cd.size_spec();
    let g = and_bucket(size);
    assert forall|v: int, w: int| 0 <= v < size && 0 <= w < size
        implies 0 <= #[trigger] g(v, w) < size by {
        assert(g(v, w) == clamp_bucket(and_val(v, w), size));
    }
    theorem_conservation_2(cd.dist(x as int), cd.dist(y as int), g, size);
}

/// Undefined-mass additivity for the conjunction operator: the output's
/// undefined mass is exactly the sum of the two inputs' undefined masses,
/// even when that sum exceeds one full unit.
pub proof fn theorem_and_undefined_additive(cd: ComputedDistributions, x: usize, y: usize)
    requires
        cd.size_spec() >= 2,
        cd.dist(x as int)[cd.size_spec()] + cd.dist(y as int)[cd.size_spec()] <= PROB_CAP,
    ensures
        op_output(cd, Operator::And(x, y))[cd.size_spec()] == cd.dist(x as int)[cd.size_spec()]
            + cd.dist(y as int)[cd.size_spec()],
{
    let size = cd.size_spec();
    let g = and_bucket(size);
    assert forall|v: int, w: int| 0 <= v < size && 0 <= w < size
        implies 0 <= #[trigger] g(v, w) < size by {
        assert(g(v, w) == clamp_bucket(and_val(v, w), size));
    }
    theorem_undefined_mass_additive(cd.dist(x as int), cd.dist(y as int), g, size);
}

/// Probability conservation for the if-then-else operator: the defined
/// output mass is the fixed-point product of the three defined input
/// masses, up to the rounding bound of the general three-input law.
pub proof fn theorem_conservation_ite(cd: ComputedDistributions, x: usize, y: usize, z: usize)
    requires
        cd.size_spec() >= 1,
        cd.dist(x as int).len() == cd.size_spec() + 1,
        cd.dist(y as int).len() == cd.size_spec() + 1,
        cd.dist(z as int).len() == cd.size_spec() + 1,
        cd.dist(x as int)[cd.size_spec()] == 0,
        cd.dist(y as int)[cd.size_spec()] == 0,
        cd.dist(z as int)[cd.size_spec()] == 0,
        mass_sum(cd.dist(x as int), cd.size_spec()) <= PROB_ONE,
        mass_sum(cd.dist(y as int), cd.size_spec()) <= PROB_ONE,
        mass_sum(cd.dist(z as int), cd.size_spec()) <= PROB_ONE,
    ensures
        PROB_ONE * PROB_ONE * mass_sum(op_output(cd, Operator::Ite(x, y, z)), cd.size_spec())
            <= mass_sum(cd.dist(x as int), cd.size_spec()) * mass_sum(
            cd.dist(y as int),
            cd.size_spec(),
        ) * mass_sum(cd.dist(z as int), cd.size_spec()),
        mass_sum(cd.dist(x as int), cd.size_spec()) * mass_sum(cd.dist(y as int), cd.size_spec())
            * mass_sum(cd.dist(z as int), cd.size_spec()) < PROB_ONE * PROB_ONE * mass_sum(
            op_output(cd, Operator::Ite(x, y, z)),
            cd.size_spec(),
        ) + PROB_ONE * PROB_ONE * cd.size_spec() * cd.size_spec() * (cd.size_spec() + 1),
        op_output(cd, Operator::Ite(x, y, z))[cd.size_spec()] == 0,
{
    let size = cd.size_spec();
    let g = ite_bucket(size);
    assert forall|v: int, w: int, u: int| 0 <= v < size && 0 <= w < size && 0 <= u < size
        implies 0 <= #[trigger] g(v, w, u) < size by {
        assert(g(v, w, u) == clamp_bucket(ite_val(v, w, u), size));
    }
    theorem_conservation_3(cd.dist(x as int), cd.dist(y as int), cd.dist(z as int), g, size);
}

} // verus!
