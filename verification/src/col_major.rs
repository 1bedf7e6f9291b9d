//! Validated const-generic column-major host views.
//!
//! Construction checks, once, that the shape product fits in `usize` and
//! equals the buffer length. Element access and first-axis lanes then rely on
//! that fact: an in-bounds index always lands inside the buffer.
//!
//! The first index varies fastest (Fortran / Julia column-major order).

use vstd::prelude::*;
use vstd::arithmetic::div_mod::lemma_fundamental_div_mod_converse;
use crate::layout::{
    extents_positive, index_in_bounds, lemma_in_bounds_extents_positive, lemma_offset_first_axis,
    lemma_prefix_product_monotone, lemma_prefix_product_zero, lemma_offset_in_buffer, lemma_offset_injective, lemma_prefix_product_first_axis, lemma_prefix_offset_bounds,
    lemma_prefix_product_nonneg, linear_offset, prefix_offset, prefix_product, product_fits,
    shape_product,
};

verus! {

broadcast use vstd::slice::group_slice_axioms;

/// Reasons a buffer cannot be viewed with a given shape.
#[derive(Debug, Clone, Copy, PartialEq, Eq)]
pub enum ViewError {
    RankMismatch { expected: usize, actual: usize },
    ShapeProductOverflow,
    LengthMismatch { expected: usize, actual: usize },
}

/// What `try_new` answers for a buffer of length `len` and a shape.
pub open spec fn view_check(shape: Seq<usize>, len: int) -> Result<(), ViewError> {
    if !product_fits(shape) {
        Err(ViewError::ShapeProductOverflow)
    } else if shape_product(shape) != len {
        Err(ViewError::LengthMismatch { expected: shape_product(shape) as usize, actual: len as usize })
    } else {
        Ok(())
    }
}

/// Product of all extents: 0 when some extent is 0, otherwise the product
/// when it fits in `usize`, and `ShapeProductOverflow` when it does not.
pub fn checked_product<const N: usize>(shape: &[usize; N]) -> (r: Result<usize, ViewError>)
    ensures
        match r {
            Ok(n) => product_fits(shape@) && n == shape_product(shape@),
            Err(e) => !product_fits(shape@) && e == ViewError::ShapeProductOverflow,
        },
{
    let mut axis: usize = 0;
    while axis < N
        invariant
            axis <= N,
            shape@.len() == N,
            forall|a: int| 0 <= a < axis ==> #[trigger] shape@[a] >= 1,
        decreases N - axis,
    {
        if shape[axis] == 0 {
            proof {
                lemma_prefix_product_zero(shape@, axis as int, N as int);
            }
            return Ok(0);
        }
        axis += 1;
    }
    assert(extents_positive(shape@));
    let mut n: usize = 1;
    let mut axis: usize = 0;
    while axis < N
        invariant
            axis <= N,
            shape@.len() == N,
            extents_positive(shape@),
            n == prefix_product(shape@, axis as int),
        decreases N - axis,
    {
        match n.checked_mul(shape[axis]) {
            Some(m) => {
                n = m;
            },
            None => {
                proof {
                    lemma_prefix_product_monotone(shape@, axis + 1, N as int);
                }
                assert(prefix_product(shape@, axis + 1) > usize::MAX);
                return Err(ViewError::ShapeProductOverflow);
            },
        }
        axis += 1;
    }
    Ok(n)
}

/// Column-major linear offset of an in-bounds index.
pub fn offset<const N: usize>(shape: &[usize; N], index: [usize; N]) -> (off: usize)
    requires
        product_fits(shape@),
        index_in_bounds(shape@, index@),
    ensures
        off == linear_offset(shape@, index@),
{
    let mut off: usize = 0;
    let mut stride: usize = 1;
    let mut axis: usize = 0;
    while axis < N
        invariant
            axis <= N,
            shape@.len() == N,
            index@.len() == N,
            product_fits(shape@),
            index_in_bounds(shape@, index@),
            off == prefix_offset(shape@, index@, axis as int),
            stride == prefix_product(shape@, axis as int),
        decreases N - axis,
    {
        proof {
            lemma_prefix_offset_bounds(shape@, index@, axis + 1);
            lemma_prefix_product_nonneg(shape@, axis as int);
            lemma_in_bounds_extents_positive(shape@, index@);
            lemma_prefix_product_monotone(shape@, axis + 1, N as int);
            assert(prefix_product(shape@, axis + 1) <= usize::MAX);
            assert(index@[axis as int] * prefix_product(shape@, axis as int) >= 0) by (nonlinear_arith)
                requires
                    index@[axis as int] >= 0,
                    prefix_product(shape@, axis as int) >= 0,
            ;
        }
        off += index[axis] * stride;
        stride *= shape[axis];
        axis += 1;
    }
    off
}

/// Whether every coordinate of `index` lies below its extent.
pub fn in_bounds<const N: usize>(shape: &[usize; N], index: [usize; N]) -> (r: bool)
    ensures
        r == index_in_bounds(shape@, index@),
{
    let mut axis: usize = 0;
    while axis < N
        invariant
            axis <= N,
            shape@.len() == N,
            index@.len() == N,
            forall|a: int| 0 <= a < axis ==> #[trigger] index@[a] < shape@[a],
        decreases N - axis,
    {
        if index[axis] >= shape[axis] {
            return false;
        }
        axis += 1;
    }
    true
}

/// Length of one first-axis lane: the first extent, or 1 for rank 0.
pub open spec fn axis0_extent_of(shape: Seq<usize>) -> int {
    if shape.len() == 0 {
        1
    } else {
        shape[0] as int
    }
}

/// Length of the chunks that `axis0_lanes` cuts the buffer into.
pub open spec fn lane_step(shape: Seq<usize>) -> int {
    if axis0_extent_of(shape) == 0 {
        1
    } else {
        axis0_extent_of(shape)
    }
}

/// Elements `lane * n0 .. lane * n0 + n0` of `data`, if they all exist.
pub open spec fn lane_of<T>(data: Seq<T>, n0: int, lane: int) -> Option<Seq<T>> {
    if lane * n0 + n0 <= data.len() {
        Some(data.subrange(lane * n0, lane * n0 + n0))
    } else {
        None
    }
}

proof fn lemma_lane_fits(len: int, n0: int, lane: int)
    requires
        0 <= lane,
        n0 >= 1,
        lane < len / n0,
    ensures
        0 <= lane * n0,
        lane * n0 + n0 <= len,
{
    assert(0 <= lane * n0) by (nonlinear_arith)
        requires
            0 <= lane,
            n0 >= 1,
    ;
    assert(lane * n0 + n0 <= len) by (nonlinear_arith)
        requires
            0 <= lane,
            n0 >= 1,
            lane < len / n0,
    ;
}

/// `data` cut into consecutive chunks of `n0` elements; a shorter tail is
/// dropped.
fn chunks_of<'b, T>(data: &'b [T], n0: usize) -> (r: Vec<&'b [T]>)
    requires
        n0 >= 1,
    ensures
        r@.len() == (data@.len() as int) / (n0 as int),
        forall|lane: int|
            0 <= lane < r@.len() ==> #[trigger] r@[lane]@ == data@.subrange(
                lane * n0,
                lane * n0 + n0,
            ),
{
    let len = data.len();
    let count = len / n0;
    let mut lanes: Vec<&'b [T]> = Vec::new();
    let mut lane: usize = 0;
    while lane < count
        invariant
            n0 >= 1,
            len == data@.len(),
            count == (len as int) / (n0 as int),
            lane <= count,
            lanes@.len() == lane,
            forall|k: int|
                0 <= k < lane ==> #[trigger] lanes@[k]@ == data@.subrange(k * n0, k * n0 + n0),
        decreases count - lane,
    {
        proof {
            lemma_lane_fits(len as int, n0 as int, lane as int);
        }
        let start = lane * n0;
        lanes.push(&data[start..start + n0]);
        lane += 1;
    }
    lanes
}

/// `data` cut into consecutive writable chunks of `n0` elements; a shorter
/// tail is dropped.
fn chunks_of_mut<'b, T>(data: &'b mut [T], n0: usize) -> (r: Vec<&'b mut [T]>)
    requires
        n0 >= 1,
    ensures
        r@.len() == (old(data)@.len() as int) / (n0 as int),
        forall|lane: int|
            0 <= lane < r@.len() ==> #[trigger] r@[lane]@ == old(data)@.subrange(
                lane * n0,
                lane * n0 + n0,
            ),
        final(data)@ == Seq::new(r@.len(), |i: int| final(r@[i])@).flatten() + old(data)@.subrange(r@.len() * n0, old(data)@.len() as int),
{
    let len = data.len();
    let count = len / n0;
    let ghost whole = data@;
    let mut rest = data;
    let mut lanes: Vec<&'b mut [T]> = Vec::new();
    let mut lane: usize = 0;
    while lane < count
        invariant
            n0 >= 1,
            len == whole.len(),
            count == (len as int) / (n0 as int),
            lane <= count,
            0 <= lane * n0 <= len,
            rest@ == whole.subrange(lane * n0, len as int),
            lanes@.len() == lane,
            whole == old(data)@,
            final(data)@ == Seq::new(lane as nat, |i: int| final(lanes@[i])@).flatten() + final(rest)@,
            forall|k: int|
                0 <= k < lane ==> #[trigger] lanes@[k]@ == whole.subrange(k * n0, k * n0 + n0),
        decreases count - lane,
    {
        proof {
            lemma_lane_fits(len as int, n0 as int, lane as int);
            assert((lane + 1) * n0 == lane * n0 + n0) by (nonlinear_arith);
        }
        let (head, tail) = rest.split_at_mut(n0);
        let ghost before = Seq::new(lane as nat, |i: int| final(lanes@[i])@);
        let ghost head_final = final(head)@;
        lanes.push(head);
        proof {
            let after = Seq::new((lane + 1) as nat, |i: int| final(lanes@[i])@);
            assert(after =~= before.push(head_final));
            before.lemma_flatten_push(head_final);
        }
        rest = tail;
        lane += 1;
    }
    lanes
}

/// Chunk number `lane` of length `n0`, if it fits in `data`.
fn lane_at<'b, T>(data: &'b [T], n0: usize, lane: usize) -> (r: Option<&'b [T]>)
    ensures
        match r {
            Some(s) => lane_of(data@, n0 as int, lane as int) == Some(s@),
            None => lane_of(data@, n0 as int, lane as int) is None,
        },
{
    let len = data.len();
    let start = match lane.checked_mul(n0) {
        Some(s) => s,
        None => {
            proof {
                assert(lane * n0 + n0 > len) by (nonlinear_arith)
                    requires
                        lane * n0 > usize::MAX,
                        n0 >= 0,
                        len <= usize::MAX,
                ;
            }
            return None;
        },
    };
    let end = match start.checked_add(n0) {
        Some(e) => e,
        None => return None,
    };
    if end <= len {
        Some(&data[start..end])
    } else {
        None
    }
}

/// Chunk number `lane` of length `n0`, which must fit in `data`.
fn lane_at_unchecked<'b, T>(data: &'b [T], n0: usize, lane: usize) -> (r: &'b [T])
    requires
        lane_of(data@, n0 as int, lane as int) is Some,
    ensures
        lane_of(data@, n0 as int, lane as int) == Some(r@),
{
    let len = data.len();
    proof {
        assert(0 <= lane * n0) by (nonlinear_arith)
            requires
                lane >= 0,
                n0 >= 0,
        ;
    }
    let start = lane * n0;
    &data[start..start + n0]
}

/// Writable chunk number `lane` of length `n0`, which must fit in `data`.
fn lane_at_mut_unchecked<'b, T>(data: &'b mut [T], n0: usize, lane: usize) -> (r: &'b mut [T])
    requires
        lane_of(old(data)@, n0 as int, lane as int) is Some,
    ensures
        lane_of(old(data)@, n0 as int, lane as int) == Some(r@),
        final(data)@ == old(data)@.subrange(0, lane * n0) + final(r)@ + old(data)@.subrange(
            lane * n0 + n0,
            old(data)@.len() as int,
        ),
{
    let len = data.len();
    proof {
        assert(0 <= lane * n0) by (nonlinear_arith)
            requires
                lane >= 0,
                n0 >= 0,
        ;
    }
    let start = lane * n0;
    let (_, tail) = data.split_at_mut(start);
    let (middle, _) = tail.split_at_mut(n0);
    middle
}

/// Writable chunk number `lane` of length `n0`, if it fits in `data`.
fn lane_at_mut<'b, T>(data: &'b mut [T], n0: usize, lane: usize) -> (r: Option<&'b mut [T]>)
    ensures
        match r {
            Some(s) => lane_of(old(data)@, n0 as int, lane as int) == Some(s@) && final(data)@
                == old(data)@.subrange(0, lane * n0) + final(s)@ + old(data)@.subrange(
                lane * n0 + n0,
                old(data)@.len() as int,
            ),
            None => lane_of(old(data)@, n0 as int, lane as int) is None && final(data)@ == old(
                data,
            )@,
        },
{
    let len = data.len();
    let start = match lane.checked_mul(n0) {
        Some(s) => s,
        None => {
            proof {
                assert(lane * n0 + n0 > len) by (nonlinear_arith)
                    requires
                        lane * n0 > usize::MAX,
                        n0 >= 0,
                        len <= usize::MAX,
                ;
            }
            return None;
        },
    };
    let end = match start.checked_add(n0) {
        Some(e) => e,
        None => return None,
    };
    if end <= len {
        Some(lane_at_mut_unchecked(data, n0, lane))
    } else {
        None
    }
}

/// The first-axis lanes tile a compact buffer exactly: their number times
/// their length is the buffer length.
pub proof fn lemma_lanes_tile(shape: Seq<usize>)
    ensures
        (shape_product(shape) / lane_step(shape)) * lane_step(shape) == shape_product(shape),
{
    lemma_prefix_product_nonneg(shape, shape.len() as int);
    if shape.len() == 0 {
        assert(shape_product(shape) == 1);
        assert(lane_step(shape) == 1);
    } else {
        lemma_prefix_product_first_axis(shape, shape.len() as int);
        let rest = shape.drop_first();
        lemma_prefix_product_nonneg(rest, rest.len() as int);
        let p = shape_product(rest);
        if shape[0] == 0 {
            assert(shape_product(shape) == 0);
            assert(lane_step(shape) == 1);
        } else {
            let s0 = shape[0] as int;
            assert(shape_product(shape) == p * s0 + 0) by (nonlinear_arith)
                requires
                    shape_product(shape) == s0 * p,
            ;
            lemma_fundamental_div_mod_converse(shape_product(shape), s0, p, 0);
            assert(lane_step(shape) == s0);
            assert(shape_product(shape) / s0 == p);
            assert(p * s0 == shape_product(shape)) by (nonlinear_arith)
                requires
                    shape_product(shape) == s0 * p,
            ;
        }
    }
}

/// Shared host-resident compact column-major view of rank `N`.
pub struct ColMajorView<'a, T, const N: usize> {
    data: &'a [T],
    shape: [usize; N],
}

impl<'a, T, const N: usize> ColMajorView<'a, T, N> {
    #[verifier::type_invariant]
    spec fn well_formed(&self) -> bool {
        &&& product_fits(self.shape@)
        &&& shape_product(self.shape@) == self.data@.len()
    }

    /// The viewed buffer, in column-major order.
    pub closed spec fn elements(&self) -> Seq<T> {
        self.data@
    }

    /// The extents of the view.
    pub closed spec fn extents(&self) -> Seq<usize> {
        self.shape@
    }

    /// View `data` with `shape`; refused when the shape product overflows or
    /// differs from the buffer length.
    pub fn try_new(data: &'a [T], shape: [usize; N]) -> (r: Result<Self, ViewError>)
        ensures
            match r {
                Ok(view) => view_check(shape@, data@.len() as int) is Ok && view.elements()
                    == data@ && view.extents() == shape@,
                Err(e) => view_check(shape@, data@.len() as int) == Err::<(), ViewError>(e),
            },
    {
        let expected = match checked_product(&shape) {
            Ok(n) => n,
            Err(e) => return Err(e),
        };
        if expected != data.len() {
            return Err(ViewError::LengthMismatch { expected, actual: data.len() });
        }
        Ok(ColMajorView { data, shape })
    }

    /// The extents of the view. Their product fits in `usize` and is the
    /// buffer length.
    pub fn shape(&self) -> (r: &[usize; N])
        ensures
            r@ == self.extents(),
            product_fits(self.extents()),
            shape_product(self.extents()) == self.elements().len(),
    {
        proof {
            use_type_invariant(self);
        }
        &self.shape
    }

    /// The whole buffer, whose length is the product of the extents.
    pub fn as_slice(&self) -> (r: &'a [T])
        ensures
            r@ == self.elements(),
            product_fits(self.extents()),
            shape_product(self.extents()) == r@.len(),
    {
        proof {
            use_type_invariant(self);
        }
        self.data
    }

    fn axis0_extent(&self) -> (r: usize)
        ensures
            r == axis0_extent_of(self.extents()),
    {
        if N == 0 {
            1
        } else {
            self.shape[0]
        }
    }

    /// The element at `index`, or `None` when a coordinate is out of bounds.
    pub fn get(&self, index: [usize; N]) -> (r: Option<&'a T>)
        ensures
            r == (if index_in_bounds(self.extents(), index@) {
                Some(&self.elements()[linear_offset(self.extents(), index@)])
            } else {
                None
            }),
    {
        if !in_bounds(&self.shape, index) {
            return None;
        }
        Some(self.get_unchecked(index))
    }

    /// The element at an in-bounds `index`, without a bounds test.
    pub fn get_unchecked(&self, index: [usize; N]) -> (r: &'a T)
        requires
            index_in_bounds(self.extents(), index@),
        ensures
            *r == self.elements()[linear_offset(self.extents(), index@)],
    {
        proof {
            use_type_invariant(self);
            lemma_offset_in_buffer(self.shape@, index@);
        }
        let off = offset(&self.shape, index);
        &self.data[off]
    }

    /// The buffer cut into contiguous first-axis vectors, in column-major
    /// order. For an empty first extent the buffer is empty and so is the
    /// result.
    pub fn axis0_lanes(&self) -> (r: Vec<&'a [T]>)
        ensures
            r@.len() == (self.elements().len() as int) / lane_step(self.extents()),
            r@.len() * lane_step(self.extents()) == self.elements().len(),
            forall|lane: int|
                0 <= lane < r@.len() ==> #[trigger] r@[lane]@ == self.elements().subrange(
                    lane * lane_step(self.extents()),
                    lane * lane_step(self.extents()) + lane_step(self.extents()),
                ),
    {
        proof {
            use_type_invariant(self);
            lemma_lanes_tile(self.shape@);
        }
        let extent = self.axis0_extent();
        let n0: usize = if extent == 0 { 1 } else { extent };
        chunks_of(self.data, n0)
    }

    /// First-axis vector number `lane`, or `None` when it does not fit.
    pub fn axis0_lane(&self, lane: usize) -> (r: Option<&'a [T]>)
        ensures
            match r {
                Some(s) => lane_of(self.elements(), axis0_extent_of(self.extents()), lane as int)
                    == Some(s@),
                None => lane_of(self.elements(), axis0_extent_of(self.extents()), lane as int)
                    is None,
            },
    {
        let n0 = self.axis0_extent();
        lane_at(self.data, n0, lane)
    }

    /// First-axis vector number `lane`, which must fit in the buffer.
    pub fn axis0_lane_unchecked(&self, lane: usize) -> (r: &'a [T])
        requires
            lane_of(self.elements(), axis0_extent_of(self.extents()), lane as int) is Some,
        ensures
            lane_of(self.elements(), axis0_extent_of(self.extents()), lane as int) == Some(r@),
    {
        let n0 = self.axis0_extent();
        lane_at_unchecked(self.data, n0, lane)
    }
}

/// Sequences that all have length `n0` flatten to `n0` times their number.
proof fn lemma_flatten_len<T>(ss: Seq<Seq<T>>, n0: int)
    requires
        forall|i: int| 0 <= i < ss.len() ==> (#[trigger] ss[i]).len() == n0,
    ensures
        ss.flatten().len() == ss.len() * n0,
    decreases ss.len(),
{
    if ss.len() > 0 {
        let rest = ss.drop_first();
        assert forall|i: int| 0 <= i < rest.len() implies (#[trigger] rest[i]).len() == n0 by {
            assert(rest[i] == ss[i + 1]);
        }
        lemma_flatten_len(rest, n0);
        assert(ss.flatten() == ss[0] + rest.flatten());
        assert(ss.len() * n0 == n0 + rest.len() * n0) by (nonlinear_arith)
            requires
                ss.len() == rest.len() + 1,
        ;
    }
}

/// Every sequence in `ss` has length `n0`.
pub open spec fn all_of_len<T>(ss: Seq<Seq<T>>, n0: int) -> bool {
    forall|i: int| 0 <= i < ss.len() ==> (#[trigger] ss[i]).len() == n0
}

proof fn lemma_flatten_len_all<T>(n0: int)
    ensures
        forall|ss: Seq<Seq<T>>| all_of_len(ss, n0) ==> (#[trigger] ss.flatten()).len() == ss.len() * n0,
{
    assert forall|ss: Seq<Seq<T>>| all_of_len(ss, n0) implies (#[trigger] ss.flatten()).len()
        == ss.len() * n0 by {
        lemma_flatten_len(ss, n0);
    }
}

/// Entry `k` of sequence `lane` sits at position `lane * n0 + k` of the
/// flattening, when every sequence has length `n0`.
proof fn lemma_flatten_index<T>(ss: Seq<Seq<T>>, n0: int, lane: int, k: int)
    requires
        all_of_len(ss, n0),
        0 <= lane < ss.len(),
        0 <= k < n0,
    ensures
        lane * n0 + k < ss.flatten().len(),
        ss.flatten()[lane * n0 + k] == ss[lane][k],
    decreases ss.len(),
{
    let rest = ss.drop_first();
    assert(all_of_len(rest, n0)) by {
        assert forall|i: int| 0 <= i < rest.len() implies (#[trigger] rest[i]).len() == n0 by {
            assert(rest[i] == ss[i + 1]);
        }
    }
    lemma_flatten_len(ss, n0);
    lemma_flatten_len(rest, n0);
    assert(ss.flatten() == ss[0] + rest.flatten());
    assert(lane * n0 + k < ss.len() * n0) by (nonlinear_arith)
        requires
            0 <= lane < ss.len(),
            0 <= k < n0,
    ;
    if lane > 0 {
        lemma_flatten_index(rest, n0, lane - 1, k);
        assert(lane * n0 + k - n0 == (lane - 1) * n0 + k) by (nonlinear_arith);
        assert(lane * n0 + k >= n0) by (nonlinear_arith)
            requires
                lane >= 1,
                k >= 0,
                n0 >= 0,
        ;
    }
}

/// Writing through the lanes of `axis0_lanes_mut`: when every lane keeps its
/// length `n0`, position `lane * n0 + k` of the buffer afterwards holds entry
/// `k` of that lane's final contents, and a lane left as it was keeps the
/// buffer's earlier values. `before` is the buffer before the call and
/// `after` the final contents of the lanes, in order.
pub proof fn lemma_lanes_write_back<T>(before: Seq<T>, after: Seq<Seq<T>>, n0: int, lane: int, k: int)
    requires
        n0 >= 1,
        before.len() == after.len() * n0,
        all_of_len(after, n0),
        0 <= lane < after.len(),
        0 <= k < n0,
    ensures
        after.flatten().len() == before.len(),
        after.flatten()[lane * n0 + k] == after[lane][k],
        after[lane] == before.subrange(lane * n0, lane * n0 + n0) ==> after.flatten()[lane * n0
            + k] == before[lane * n0 + k],
{
    lemma_flatten_len(after, n0);
    lemma_flatten_index(after, n0, lane, k);
    assert(0 <= lane * n0 && lane * n0 + n0 <= after.len() * n0) by (nonlinear_arith)
        requires
            0 <= lane < after.len(),
            n0 >= 1,
    ;
    if after[lane] == before.subrange(lane * n0, lane * n0 + n0) {
        assert(before.subrange(lane * n0, lane * n0 + n0)[k] == before[lane * n0 + k]);
    }
}

/// Exclusive host-resident compact column-major view of rank `N`.
pub struct ColMajorViewMut<'a, T, const N: usize> {
    data: &'a mut [T],
    shape: [usize; N],
}

impl<'a, T, const N: usize> ColMajorViewMut<'a, T, N> {
    /// The shape product fits in `usize` and equals the buffer length.
    pub closed spec fn wf(&self) -> bool {
        &&& product_fits(self.shape@)
        &&& shape_product(self.shape@) == self.data@.len()
    }

    /// The viewed buffer, in column-major order.
    pub closed spec fn elements(&self) -> Seq<T> {
        self.data@
    }

    /// The extents of the view.
    pub closed spec fn extents(&self) -> Seq<usize> {
        self.shape@
    }

    /// A well-formed view holds exactly as many elements as its extents
    /// multiply to, and that product fits in `usize`.
    pub proof fn lemma_wf(&self)
        requires
            self.wf(),
        ensures
            product_fits(self.extents()),
            shape_product(self.extents()) == self.elements().len(),
    {
    }

    /// View `data` with `shape`; refused when the shape product overflows or
    /// differs from the buffer length.
    pub fn try_new(data: &'a mut [T], shape: [usize; N]) -> (r: Result<Self, ViewError>)
        ensures
            match r {
                Ok(view) => view_check(shape@, old(data)@.len() as int) is Ok && view.wf()
                    && view.elements() == old(data)@ && view.extents() == shape@,
                Err(e) => view_check(shape@, old(data)@.len() as int) == Err::<(), ViewError>(e)
                    && final(data)@ == old(data)@,
            },
    {
        let expected = match checked_product(&shape) {
            Ok(n) => n,
            Err(e) => return Err(e),
        };
        let len = data.len();
        if expected != len {
            return Err(ViewError::LengthMismatch { expected, actual: len });
        }
        Ok(ColMajorViewMut { data, shape })
    }

    /// The extents of the view.
    pub fn shape(&self) -> (r: &[usize; N])
        ensures
            r@ == self.extents(),
    {
        &self.shape
    }

    /// The whole buffer.
    pub fn as_slice(&self) -> (r: &[T])
        ensures
            r@ == self.elements(),
    {
        self.data
    }

    /// The whole buffer, for writing. The view stays well formed as long as
    /// the slice keeps its length, which every write through it does.
    pub fn as_mut_slice(&mut self) -> (r: &mut [T])
        requires
            old(self).wf(),
        ensures
            r@ == old(self).elements(),
            final(self).elements() == final(r)@,
            final(self).extents() == old(self).extents(),
            final(r)@.len() == r@.len() ==> final(self).wf(),
    {
        self.data
    }

    fn axis0_extent(&self) -> (r: usize)
        ensures
            r == axis0_extent_of(self.extents()),
    {
        if N == 0 {
            1
        } else {
            self.shape[0]
        }
    }

    /// The element at `index`, or `None` when a coordinate is out of bounds.
    pub fn get(&self, index: [usize; N]) -> (r: Option<&T>)
        requires
            self.wf(),
        ensures
            r == (if index_in_bounds(self.extents(), index@) {
                Some(&self.elements()[linear_offset(self.extents(), index@)])
            } else {
                None
            }),
    {
        if !in_bounds(&self.shape, index) {
            return None;
        }
        Some(self.get_unchecked(index))
    }

    /// The element at `index` for writing, or `None` when a coordinate is out
    /// of bounds.
    pub fn get_mut(&mut self, index: [usize; N]) -> (r: Option<&mut T>)
        requires
            old(self).wf(),
        ensures
            final(self).wf(),
            final(self).extents() == old(self).extents(),
            match r {
                Some(x) => index_in_bounds(old(self).extents(), index@) && *x == old(
                    self,
                ).elements()[linear_offset(old(self).extents(), index@)] && final(self).elements()
                    == old(self).elements().update(
                    linear_offset(old(self).extents(), index@),
                    *final(x),
                ),
                None => !index_in_bounds(old(self).extents(), index@) && final(self).elements()
                    == old(self).elements(),
            },
    {
        if !in_bounds(&self.shape, index) {
            return None;
        }
        Some(self.get_unchecked_mut(index))
    }

    /// The element at an in-bounds `index`, without a bounds test.
    pub fn get_unchecked(&self, index: [usize; N]) -> (r: &T)
        requires
            self.wf(),
            index_in_bounds(self.extents(), index@),
        ensures
            *r == self.elements()[linear_offset(self.extents(), index@)],
    {
        proof {
            lemma_offset_in_buffer(self.shape@, index@);
        }
        let off = offset(&self.shape, index);
        &self.data[off]
    }

    /// The element at an in-bounds `index` for writing, without a bounds test.
    pub fn get_unchecked_mut(&mut self, index: [usize; N]) -> (r: &mut T)
        requires
            old(self).wf(),
            index_in_bounds(old(self).extents(), index@),
        ensures
            *r == old(self).elements()[linear_offset(old(self).extents(), index@)],
            final(self).elements() == old(self).elements().update(
                linear_offset(old(self).extents(), index@),
                *final(r),
            ),
            final(self).extents() == old(self).extents(),
            final(self).wf(),
    {
        proof {
            lemma_offset_in_buffer(self.shape@, index@);
        }
        let off = offset(&self.shape, index);
        let (_, tail) = self.data.split_at_mut(off);
        tail.first_mut().unwrap()
    }

    /// The buffer cut into contiguous first-axis vectors, in column-major
    /// order.
    pub fn axis0_lanes(&self) -> (r: Vec<&[T]>)
        requires
            self.wf(),
        ensures
            r@.len() == (self.elements().len() as int) / lane_step(self.extents()),
            r@.len() * lane_step(self.extents()) == self.elements().len(),
            forall|lane: int|
                0 <= lane < r@.len() ==> #[trigger] r@[lane]@ == self.elements().subrange(
                    lane * lane_step(self.extents()),
                    lane * lane_step(self.extents()) + lane_step(self.extents()),
                ),
    {
        proof {
            lemma_lanes_tile(self.shape@);
        }
        let extent = self.axis0_extent();
        let n0: usize = if extent == 0 { 1 } else { extent };
        chunks_of(self.data, n0)
    }

    /// The buffer cut into contiguous writable first-axis vectors, in
    /// column-major order. What is written through the lanes is what the
    /// view holds afterwards.
    pub fn axis0_lanes_mut(&mut self) -> (r: Vec<&mut [T]>)
        requires
            old(self).wf(),
        ensures
            r@.len() == (old(self).elements().len() as int) / lane_step(old(self).extents()),
            r@.len() * lane_step(old(self).extents()) == old(self).elements().len(),
            forall|lane: int|
                0 <= lane < r@.len() ==> #[trigger] r@[lane]@ == old(self).elements().subrange(
                    lane * lane_step(old(self).extents()),
                    lane * lane_step(old(self).extents()) + lane_step(old(self).extents()),
                ),
            final(self).elements() == Seq::new(r@.len(), |i: int| final(r@[i])@).flatten(),
            final(self).extents() == old(self).extents(),
            (forall|i: int| 0 <= i < r@.len() ==> (#[trigger] final(r@[i]))@.len() == r@[i]@.len())
                ==> final(self).wf(),
    {
        proof {
            lemma_lanes_tile(self.shape@);
        }
        let extent = self.axis0_extent();
        let n0: usize = if extent == 0 { 1 } else { extent };
        let ghost before = self.data@;
        let lanes = chunks_of_mut(self.data, n0);
        proof {
            assert(before.subrange(lanes@.len() * n0, before.len() as int) =~= Seq::<T>::empty());
            lemma_flatten_len_all::<T>(n0 as int);
            assert forall|i: int| 0 <= i < lanes@.len() implies #[trigger] lanes@[i]@.len() == n0 by {
                lemma_lane_fits(before.len() as int, n0 as int, i);
            }
            assert((forall|i: int| 0 <= i < lanes@.len() ==> (#[trigger] final(lanes@[i]))@.len()
                == lanes@[i]@.len()) ==> all_of_len(
                Seq::new(lanes@.len(), |k: int| final(lanes@[k])@),
                n0 as int,
            ));
        }
        lanes
    }

    /// First-axis vector number `lane`, or `None` when it does not fit.
    pub fn axis0_lane(&self, lane: usize) -> (r: Option<&[T]>)
        ensures
            match r {
                Some(s) => lane_of(self.elements(), axis0_extent_of(self.extents()), lane as int)
                    == Some(s@),
                None => lane_of(self.elements(), axis0_extent_of(self.extents()), lane as int)
                    is None,
            },
    {
        let n0 = self.axis0_extent();
        lane_at(self.data, n0, lane)
    }

    /// Writable first-axis vector number `lane`, or `None` when it does not
    /// fit. Only that lane of the buffer can change.
    pub fn axis0_lane_mut(&mut self, lane: usize) -> (r: Option<&mut [T]>)
        requires
            old(self).wf(),
        ensures
            final(self).extents() == old(self).extents(),
            match r {
                Some(s) => final(s)@.len() == s@.len() ==> final(self).wf(),
                None => final(self).wf(),
            },
            match r {
                Some(s) => {
                    let n0 = axis0_extent_of(old(self).extents());
                    &&& lane_of(old(self).elements(), n0, lane as int) == Some(s@)
                    &&& final(self).elements() == old(self).elements().subrange(0, lane * n0)
                        + final(s)@ + old(self).elements().subrange(
                        lane * n0 + n0,
                        old(self).elements().len() as int,
                    )
                },
                None => lane_of(
                    old(self).elements(),
                    axis0_extent_of(old(self).extents()),
                    lane as int,
                ) is None && final(self).elements() == old(self).elements(),
            },
    {
        let n0 = self.axis0_extent();
        lane_at_mut(self.data, n0, lane)
    }

    /// First-axis vector number `lane`, which must fit in the buffer.
    pub fn axis0_lane_unchecked(&self, lane: usize) -> (r: &[T])
        requires
            lane_of(self.elements(), axis0_extent_of(self.extents()), lane as int) is Some,
        ensures
            lane_of(self.elements(), axis0_extent_of(self.extents()), lane as int) == Some(r@),
    {
        let n0 = self.axis0_extent();
        lane_at_unchecked(self.data, n0, lane)
    }

    /// Writable first-axis vector number `lane`, which must fit in the buffer.
    /// Only that lane of the buffer can change.
    pub fn axis0_lane_unchecked_mut(&mut self, lane: usize) -> (r: &mut [T])
        requires
            old(self).wf(),
            lane_of(old(self).elements(), axis0_extent_of(old(self).extents()), lane as int) is Some,
        ensures
            final(r)@.len() == r@.len() ==> final(self).wf(),
            lane_of(old(self).elements(), axis0_extent_of(old(self).extents()), lane as int)
                == Some(r@),
            final(self).elements() == old(self).elements().subrange(
                0,
                lane * axis0_extent_of(old(self).extents()),
            ) + final(r)@ + old(self).elements().subrange(
                lane * axis0_extent_of(old(self).extents()) + axis0_extent_of(
                    old(self).extents(),
                ),
                old(self).elements().len() as int,
            ),
            final(self).extents() == old(self).extents(),
    {
        let n0 = self.axis0_extent();
        lane_at_mut_unchecked(self.data, n0, lane)
    }
}

impl<'a, T, const N: usize> std::ops::Index<[usize; N]> for ColMajorView<'a, T, N> {
    type Output = T;

    fn index(&self, index: [usize; N]) -> (r: &T)
        ensures
            *r == self.elements()[linear_offset(self.extents(), index@)],
    {
        self.get_unchecked(index)
    }
}

impl<'a, T, const N: usize> vstd::std_specs::core::IndexSpecImpl<[usize; N]> for ColMajorView<'a, T, N> {
    open spec fn index_req(&self, index: &[usize; N]) -> bool {
        index_in_bounds(self.extents(), index@)
    }
}

impl<'a, T, const N: usize> std::ops::Index<[usize; N]> for ColMajorViewMut<'a, T, N> {
    type Output = T;

    fn index(&self, index: [usize; N]) -> (r: &T)
        ensures
            *r == self.elements()[linear_offset(self.extents(), index@)],
    {
        self.get_unchecked(index)
    }
}

impl<'a, T, const N: usize> vstd::std_specs::core::IndexSpecImpl<[usize; N]> for ColMajorViewMut<'a, T, N> {
    open spec fn index_req(&self, index: &[usize; N]) -> bool {
        self.wf() && index_in_bounds(self.extents(), index@)
    }
}

/// Writing one element of a view (through `get_mut` or
/// `get_unchecked_mut`) changes exactly that element: reading the written
/// index back gives the written value, and every other in-bounds index reads
/// what it read before.
pub proof fn lemma_write_then_read<T>(
    shape: Seq<usize>,
    elements: Seq<T>,
    written: Seq<usize>,
    read: Seq<usize>,
    value: T,
)
    requires
        shape_product(shape) == elements.len(),
        index_in_bounds(shape, written),
        index_in_bounds(shape, read),
    ensures
        elements.update(linear_offset(shape, written), value)[linear_offset(shape, read)] == if read
            == written {
            value
        } else {
            elements[linear_offset(shape, read)]
        },
{
    lemma_offset_in_buffer(shape, written);
    lemma_offset_in_buffer(shape, read);
    if linear_offset(shape, read) == linear_offset(shape, written) {
        lemma_offset_injective(shape, read, written);
    }
}

/// The first index varies fastest: the element at `[i0, rest..]` is entry
/// `i0` of first-axis lane number `offset(rest)`, and that lane lies inside
/// the buffer.
pub proof fn lemma_element_in_lane<T>(shape: Seq<usize>, elements: Seq<T>, index: Seq<usize>)
    requires
        shape.len() >= 1,
        shape_product(shape) == elements.len(),
        index_in_bounds(shape, index),
    ensures
        ({
            let lane = linear_offset(shape.drop_first(), index.drop_first());
            &&& lane_of(elements, axis0_extent_of(shape), lane) is Some
            &&& lane_of(elements, axis0_extent_of(shape), lane)->0[index[0] as int]
                == elements[linear_offset(shape, index)]
        }),
{
    let rest = shape.drop_first();
    let irest = index.drop_first();
    let lane = linear_offset(rest, irest);
    let s0 = shape[0] as int;
    assert(index_in_bounds(rest, irest)) by {
        assert forall|a: int| 0 <= a < rest.len() implies #[trigger] irest[a] < rest[a] by {
            assert(irest[a] == index[a + 1]);
        }
    }
    lemma_offset_in_buffer(rest, irest);
    lemma_offset_first_axis(shape, index);
    lemma_prefix_product_first_axis(shape, shape.len() as int);
    assert(index[0] < s0);
    assert(lane * s0 + s0 <= elements.len()) by (nonlinear_arith)
        requires
            0 <= lane < shape_product(rest),
            elements.len() == s0 * shape_product(rest),
            s0 >= 0,
    ;
    assert(linear_offset(shape, index) == lane * s0 + index[0]) by (nonlinear_arith)
        requires
            linear_offset(shape, index) == index[0] + s0 * lane,
    ;
}

} // verus!
