//! Column-major layout arithmetic: shape products, bounds and linear offsets.
//!
//! The first index varies fastest: for a shape `[s0, s1, ...]` the element at
//! `[i0, i1, ...]` lives at `i0 + s0 * (i1 + s1 * (...))`.

use vstd::prelude::*;
use vstd::arithmetic::div_mod::{
    lemma_fundamental_div_mod, lemma_fundamental_div_mod_converse, lemma_mod_bound,
};
use vstd::arithmetic::mul::{lemma_mul_is_associative, lemma_mul_nonnegative};

verus! {

/// Product of the first `k` extents of `shape` (the stride of axis `k`).
pub open spec fn prefix_product(shape: Seq<usize>, k: int) -> int
    decreases k,
{
    if k <= 0 {
        1
    } else {
        prefix_product(shape, k - 1) * shape[k - 1]
    }
}

/// Number of elements of a compact buffer with the given shape.
pub open spec fn shape_product(shape: Seq<usize>) -> int {
    prefix_product(shape, shape.len() as int)
}

/// The product of all extents (0 when any extent is 0) fits in `usize`.
pub open spec fn product_fits(shape: Seq<usize>) -> bool {
    shape_product(shape) <= usize::MAX
}

/// Every extent is at least 1.
pub open spec fn extents_positive(shape: Seq<usize>) -> bool {
    forall|a: int| 0 <= a < shape.len() ==> #[trigger] shape[a] >= 1
}

/// `index` has one coordinate per axis and each lies below its extent.
pub open spec fn index_in_bounds(shape: Seq<usize>, index: Seq<usize>) -> bool {
    &&& index.len() == shape.len()
    &&& forall|a: int| 0 <= a < shape.len() ==> #[trigger] index[a] < shape[a]
}

/// Column-major offset of the first `k` coordinates of `index`.
pub open spec fn prefix_offset(shape: Seq<usize>, index: Seq<usize>, k: int) -> int
    decreases k,
{
    if k <= 0 {
        0
    } else {
        prefix_offset(shape, index, k - 1) + index[k - 1] * prefix_product(shape, k - 1)
    }
}

/// Column-major linear offset of `index` in a compact buffer of shape `shape`.
pub open spec fn linear_offset(shape: Seq<usize>, index: Seq<usize>) -> int {
    prefix_offset(shape, index, shape.len() as int)
}

/// Running products of extents are never negative.
pub proof fn lemma_prefix_product_nonneg(shape: Seq<usize>, k: int)
    ensures
        0 <= prefix_product(shape, k),
    decreases k,
{
    if k > 0 {
        lemma_prefix_product_nonneg(shape, k - 1);
        lemma_mul_nonnegative(prefix_product(shape, k - 1), shape[k - 1] as int);
    }
}

/// A zero extent makes every running product that includes it zero.
pub proof fn lemma_prefix_product_zero(shape: Seq<usize>, a: int, k: int)
    requires
        0 <= a < k <= shape.len(),
        shape[a] == 0,
    ensures
        prefix_product(shape, k) == 0,
    decreases k,
{
    if k - 1 > a {
        lemma_prefix_product_zero(shape, a, k - 1);
    }
}

/// With every extent at least 1, the running products are at least 1 and
/// never decrease.
pub proof fn lemma_prefix_product_monotone(shape: Seq<usize>, j: int, k: int)
    requires
        extents_positive(shape),
        0 <= j <= k <= shape.len(),
    ensures
        1 <= prefix_product(shape, j) <= prefix_product(shape, k),
    decreases k,
{
    if k > 0 {
        if j < k {
            lemma_prefix_product_monotone(shape, j, k - 1);
        } else {
            lemma_prefix_product_monotone(shape, k - 1, k - 1);
        }
        let p = prefix_product(shape, k - 1);
        let s = shape[k - 1] as int;
        assert(s >= 1);
        assert(1 <= p <= p * s) by (nonlinear_arith)
            requires
                p >= 1,
                s >= 1,
        ;
    }
}

/// An in-bounds index exists only when every extent is at least 1.
pub proof fn lemma_in_bounds_extents_positive(shape: Seq<usize>, index: Seq<usize>)
    requires
        index_in_bounds(shape, index),
    ensures
        extents_positive(shape),
{
    assert forall|a: int| 0 <= a < shape.len() implies #[trigger] shape[a] >= 1 by {
        assert(index[a] < shape[a]);
    }
}

/// The offset of the first `k` coordinates of an in-bounds index lies below
/// the product of the first `k` extents.
pub proof fn lemma_prefix_offset_bounds(shape: Seq<usize>, index: Seq<usize>, k: int)
    requires
        index_in_bounds(shape, index),
        0 <= k <= shape.len(),
    ensures
        0 <= prefix_offset(shape, index, k) < prefix_product(shape, k),
    decreases k,
{
    if k > 0 {
        lemma_prefix_offset_bounds(shape, index, k - 1);
        let p = prefix_product(shape, k - 1);
        let off = prefix_offset(shape, index, k - 1);
        let i = index[k - 1] as int;
        let s = shape[k - 1] as int;
        assert(i < s);
        lemma_mul_nonnegative(i, p);
        assert(off + i * p < prefix_product(shape, k)) by (nonlinear_arith)
            requires
                0 <= off < p,
                0 <= i < s,
                prefix_product(shape, k) == p * s,
        ;
    }
}

/// An in-bounds index lands inside the compact buffer of its shape.
pub proof fn lemma_offset_in_buffer(shape: Seq<usize>, index: Seq<usize>)
    requires
        index_in_bounds(shape, index),
    ensures
        0 <= linear_offset(shape, index) < shape_product(shape),
{
    lemma_prefix_offset_bounds(shape, index, shape.len() as int);
}

/// Distinct in-bounds indices address distinct elements: the column-major
/// offset is injective on the indices that lie inside the shape.
pub proof fn lemma_offset_injective(shape: Seq<usize>, a: Seq<usize>, b: Seq<usize>)
    requires
        index_in_bounds(shape, a),
        index_in_bounds(shape, b),
        linear_offset(shape, a) == linear_offset(shape, b),
    ensures
        a == b,
{
    lemma_prefix_offset_injective(shape, a, b, shape.len() as int);
    assert(a =~= b);
}

proof fn lemma_prefix_offset_injective(shape: Seq<usize>, a: Seq<usize>, b: Seq<usize>, k: int)
    requires
        index_in_bounds(shape, a),
        index_in_bounds(shape, b),
        0 <= k <= shape.len(),
        prefix_offset(shape, a, k) == prefix_offset(shape, b, k),
    ensures
        forall|j: int| 0 <= j < k ==> a[j] == b[j],
    decreases k,
{
    if k > 0 {
        let p = prefix_product(shape, k - 1);
        lemma_prefix_offset_bounds(shape, a, k - 1);
        lemma_prefix_offset_bounds(shape, b, k - 1);
        let x = prefix_offset(shape, a, k);
        lemma_fundamental_div_mod_converse(
            x,
            p,
            a[k - 1] as int,
            prefix_offset(shape, a, k - 1),
        );
        lemma_fundamental_div_mod_converse(
            x,
            p,
            b[k - 1] as int,
            prefix_offset(shape, b, k - 1),
        );
        lemma_prefix_offset_injective(shape, a, b, k - 1);
    }
}

/// Splitting off the first axis: the stride of axis `k` is the first extent
/// times the stride of axis `k - 1` of the remaining shape.
pub proof fn lemma_prefix_product_first_axis(shape: Seq<usize>, k: int)
    requires
        1 <= k <= shape.len(),
    ensures
        prefix_product(shape, k) == shape[0] * prefix_product(shape.drop_first(), k - 1),
    decreases k,
{
    let rest = shape.drop_first();
    if k == 1 {
        assert(prefix_product(shape, 0) == 1);
        assert(prefix_product(rest, 0) == 1);
    } else {
        lemma_prefix_product_first_axis(shape, k - 1);
        assert(rest[k - 2] == shape[k - 1]);
        lemma_mul_is_associative(
            shape[0] as int,
            prefix_product(rest, k - 2),
            rest[k - 2] as int,
        );
    }
}

/// The first index varies fastest: the offset of `[i0, rest..]` is
/// `i0 + s0 * offset(rest)` over the remaining axes.
pub proof fn lemma_offset_first_axis(shape: Seq<usize>, index: Seq<usize>)
    requires
        shape.len() >= 1,
        index.len() == shape.len(),
    ensures
        linear_offset(shape, index) == index[0] + shape[0] * linear_offset(
            shape.drop_first(),
            index.drop_first(),
        ),
{
    lemma_prefix_offset_first_axis(shape, index, shape.len() as int);
}

proof fn lemma_prefix_offset_first_axis(shape: Seq<usize>, index: Seq<usize>, k: int)
    requires
        1 <= k <= shape.len(),
        index.len() == shape.len(),
    ensures
        prefix_offset(shape, index, k) == index[0] + shape[0] * prefix_offset(
            shape.drop_first(),
            index.drop_first(),
            k - 1,
        ),
    decreases k,
{
    let rest = shape.drop_first();
    let irest = index.drop_first();
    if k == 1 {
        assert(prefix_offset(shape, index, 0) == 0);
        assert(prefix_product(shape, 0) == 1);
        assert(prefix_offset(rest, irest, 0) == 0);
    } else {
        lemma_prefix_offset_first_axis(shape, index, k - 1);
        lemma_prefix_product_first_axis(shape, k - 1);
        let s0 = shape[0] as int;
        let o = prefix_offset(rest, irest, k - 2);
        let i = irest[k - 2] as int;
        let p = prefix_product(rest, k - 2);
        assert(index[k - 1] == irest[k - 2]);
        assert(s0 * o + i * (s0 * p) == s0 * (o + i * p)) by (nonlinear_arith);
    }
}

/// Every position of a compact buffer is the offset of some in-bounds index,
/// so together with injectivity the offset is a bijection between the
/// in-bounds indices and the positions `0 .. shape_product(shape)`.
pub proof fn lemma_offset_surjective(shape: Seq<usize>, position: int)
    requires
        0 <= position < shape_product(shape),
    ensures
        exists|index: Seq<usize>|
            index_in_bounds(shape, index) && #[trigger] linear_offset(shape, index) == position,
    decreases shape.len(),
{
    if shape.len() == 0 {
        let index = Seq::<usize>::empty();
        assert(linear_offset(shape, index) == 0);
        assert(index_in_bounds(shape, index));
    } else {
        let rest = shape.drop_first();
        let s0 = shape[0] as int;
        lemma_prefix_product_first_axis(shape, shape.len() as int);
        lemma_prefix_product_nonneg(rest, rest.len() as int);
        let p = shape_product(rest);
        assert(s0 > 0 && p > 0) by (nonlinear_arith)
            requires
                0 <= position < s0 * p,
                s0 >= 0,
                p >= 0,
        ;
        lemma_fundamental_div_mod(position, s0);
        lemma_mod_bound(position, s0);
        let i0 = position % s0;
        let q = position / s0;
        assert(0 <= q < p) by (nonlinear_arith)
            requires
                position == s0 * q + i0,
                0 <= i0 < s0,
                0 <= position < s0 * p,
        ;
        lemma_offset_surjective(rest, q);
        let r = choose|r: Seq<usize>| index_in_bounds(rest, r) && #[trigger] linear_offset(rest, r) == q;
        let index = seq![i0 as usize] + r;
        assert(index.drop_first() =~= r);
        lemma_offset_first_axis(shape, index);
        assert forall|a: int| 0 <= a < shape.len() implies #[trigger] index[a] < shape[a] by {
            if a > 0 {
                assert(index[a] == r[a - 1]);
                assert(shape[a] == rest[a - 1]);
            }
        }
        assert(index_in_bounds(shape, index));
        assert(linear_offset(shape, index) == position);
    }
}

} // verus!
