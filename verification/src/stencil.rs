//! The five-point stencil of `-Δ` on an interior grid, as COO triplets.
//!
//! Unknowns of an `n × n` grid are numbered column-major: point `(i, j)` is
//! unknown `i + n * j`.

use vstd::prelude::*;
use crate::coo::{
    assembled, lemma_assembled_count, folds_to, key_of, key_pushed, key_stored, keys_distinct, lemma_pushed_values_single,
    lemma_stored_iff_pushed, pushed_values, stored_key_valid, SparseCooBuilder,
};
use crate::sparse::{OperatorError, SparseCsrPattern};
use vstd::arithmetic::div_mod::lemma_fundamental_div_mod_converse;
use crate::grid::{idx, lemma_point_in_grid};

verus! {

/// `s` with `a` appended when `cond` holds.
pub open spec fn push_if<A>(s: Seq<A>, cond: bool, a: A) -> Seq<A> {
    if cond {
        s.push(a)
    } else {
        s
    }
}

/// The triplets of one grid point: the diagonal first, then the neighbours
/// below and above in `i`, then below and above in `j`, each only where it
/// exists.
pub open spec fn point_triplets<V>(size: int, i: int, j: int, center: V, neighbor: V) -> Seq<
    (usize, usize, V),
> {
    let row = i + size * j;
    push_if(
        push_if(
            push_if(
                push_if(
                    seq![(row as usize, row as usize, center)],
                    i > 0,
                    (row as usize, (row - 1) as usize, neighbor),
                ),
                i + 1 < size,
                (row as usize, (row + 1) as usize, neighbor),
            ),
            j > 0,
            (row as usize, (row - size) as usize, neighbor),
        ),
        j + 1 < size,
        (row as usize, (row + size) as usize, neighbor),
    )
}

/// The triplets of the first `count` grid points, in unknown order.
pub open spec fn stencil_triplets<V>(size: int, count: int, center: V, neighbor: V) -> Seq<
    (usize, usize, V),
>
    decreases count,
{
    if count <= 0 || size <= 0 {
        Seq::empty()
    } else {
        stencil_triplets(size, count - 1, center, neighbor) + point_triplets(
            size,
            (count - 1) % size,
            (count - 1) / size,
            center,
            neighbor,
        )
    }
}

/// Push the triplets of grid point `(i, j)`.
fn push_point<V: Copy>(
    builder: &mut SparseCooBuilder<V>,
    size: usize,
    i: usize,
    j: usize,
    center: V,
    neighbor: V,
)
    requires
        i < size,
        j < size,
        size * size <= usize::MAX,
        old(builder).row_count() == size * size,
        old(builder).column_count() == size * size,
    ensures
        final(builder).row_count() == size * size,
        final(builder).column_count() == size * size,
        final(builder).triplets() == old(builder).triplets() + point_triplets(
            size as int,
            i as int,
            j as int,
            center,
            neighbor,
        ),
{
    proof {
        lemma_point_in_grid(i as int, j as int, size as int);
        assert(j > 0 ==> size * j >= size) by (nonlinear_arith)
            requires
                size >= 0,
                j >= 0,
        ;
        assert(j + 1 < size ==> i + size * j + size < size * size) by (nonlinear_arith)
            requires
                0 <= i < size,
                0 <= j,
        ;
    }
    let ghost start = builder.triplets();
    let row = idx(i, j, size);
    let _ = builder.push(row, row, center);
    let ghost s1 = builder.triplets();
    assert(s1 == start + seq![(row, row, center)]);
    if i > 0 {
        let _ = builder.push(row, row - 1, neighbor);
    }
    let ghost s2 = builder.triplets();
    if i + 1 < size {
        let _ = builder.push(row, row + 1, neighbor);
    }
    let ghost s3 = builder.triplets();
    if j > 0 {
        let _ = builder.push(row, row - size, neighbor);
    }
    let ghost s4 = builder.triplets();
    if j + 1 < size {
        let _ = builder.push(row, row + size, neighbor);
    }
    proof {
        let p = point_triplets(size as int, i as int, j as int, center, neighbor);
        assert(builder.triplets() =~= start + p);
    }
}

/// The five-point matrix of `-Δ` on an `interior_size × interior_size` grid,
/// as triplets: `center` on the diagonal and `neighbor` for each of the up
/// to four grid neighbours, pushed point by point in unknown order.
pub fn five_point_builder<V: Copy>(interior_size: usize, center: V, neighbor: V) -> (r:
    SparseCooBuilder<V>)
    requires
        interior_size * interior_size <= usize::MAX,
    ensures
        r.row_count() == interior_size * interior_size,
        r.column_count() == interior_size * interior_size,
        r.triplets() == stencil_triplets(
            interior_size as int,
            interior_size * interior_size,
            center,
            neighbor,
        ),
{
    let size = interior_size;
    let unknowns = size * size;
    let mut builder = SparseCooBuilder::new(unknowns, unknowns);
    let mut j: usize = 0;
    while j < size
        invariant
            unknowns == size * size,
            j <= size,
            builder.row_count() == unknowns,
            builder.column_count() == unknowns,
            builder.triplets() == stencil_triplets(size as int, size * j, center, neighbor),
        decreases size - j,
    {
        let mut i: usize = 0;
        while i < size
            invariant
                unknowns == size * size,
                j < size,
                i <= size,
                builder.row_count() == unknowns,
                builder.column_count() == unknowns,
                builder.triplets() == stencil_triplets(size as int, i + size * j, center, neighbor),
            decreases size - i,
        {
            proof {
                let t = i + size * j;
                assert(t == j * size + i) by (nonlinear_arith)
                    requires
                        t == i + size * j,
                ;
                assert(t % (size as int) == i && t / (size as int) == j) by {
                    vstd::arithmetic::div_mod::lemma_fundamental_div_mod_converse(
                        t as int,
                        size as int,
                        j as int,
                        i as int,
                    );
                }
            }
            push_point(&mut builder, size, i, j, center, neighbor);
            i += 1;
        }
        proof {
            assert(size + size * j == size * (j + 1)) by (nonlinear_arith);
        }
        j += 1;
    }
    builder
}

/// Triplet `y` is one that grid point `t` pushes: its diagonal, or the
/// coupling to a neighbour that exists.
pub open spec fn in_point<V>(size: int, t: int, y: (usize, usize, V), center: V, neighbor: V) -> bool {
    let i = t % size;
    let j = t / size;
    ||| y == (t as usize, t as usize, center)
    ||| (i > 0 && y == (t as usize, (t - 1) as usize, neighbor))
    ||| (i + 1 < size && y == (t as usize, (t + 1) as usize, neighbor))
    ||| (j > 0 && y == (t as usize, (t - size) as usize, neighbor))
    ||| (j + 1 < size && y == (t as usize, (t + size) as usize, neighbor))
}

proof fn lemma_split(size: int, t: int, i: int, j: int)
    requires
        1 <= size,
        0 <= i < size,
        t == i + size * j,
    ensures
        t % size == i,
        t / size == j,
{
    assert(t == j * size + i) by (nonlinear_arith)
        requires
            t == i + size * j,
    ;
    lemma_fundamental_div_mod_converse(t, size, j, i);
}

proof fn lemma_push_if_contains<A>(s: Seq<A>, cond: bool, a: A, y: A)
    ensures
        push_if(s, cond, a).contains(y) == (s.contains(y) || (cond && y == a)),
{
    if cond {
        let t = s.push(a);
        if s.contains(y) {
            let k = choose|k: int| 0 <= k < s.len() && s[k] == y;
            assert(t[k] == y);
        }
        if y == a {
            assert(t[s.len() as int] == a);
        }
        if t.contains(y) {
            let k = choose|k: int| 0 <= k < t.len() && t[k] == y;
            if k < s.len() {
                assert(s[k] == y);
            }
        }
    }
}

proof fn lemma_push_if_distinct<V>(s: Seq<(usize, usize, V)>, cond: bool, a: (usize, usize, V))
    requires
        keys_distinct(s),
        cond ==> forall|k: int| 0 <= k < s.len() ==> key_of(#[trigger] s[k]) != key_of(a),
    ensures
        keys_distinct(push_if(s, cond, a)),
{
    if cond {
        let t = s.push(a);
        assert forall|x: int, y: int| 0 <= x < y < t.len() implies key_of(#[trigger] t[x]) != key_of(
            #[trigger] t[y],
        ) by {
            if y < s.len() {
                assert(t[x] == s[x] && t[y] == s[y]);
            } else {
                assert(t[x] == s[x]);
            }
        }
    }
}

/// Grid point `t` pushes exactly the triplets of `in_point`, no coordinate
/// twice.
proof fn lemma_point_facts<V>(size: int, t: int, center: V, neighbor: V)
    requires
        1 <= size,
        0 <= t < size * size,
        size * size <= usize::MAX,
    ensures
        0 <= t % size < size,
        0 <= t / size < size,
        t % size + size * (t / size) == t,
        forall|y: (usize, usize, V)|
            #[trigger] point_triplets(size, t % size, t / size, center, neighbor).contains(y)
                <==> in_point(size, t, y, center, neighbor),
        keys_distinct(point_triplets(size, t % size, t / size, center, neighbor)),
{
    let i = t % size;
    let j = t / size;
    vstd::arithmetic::div_mod::lemma_fundamental_div_mod(t, size);
    vstd::arithmetic::div_mod::lemma_mod_bound(t, size);
    assert(t == i + size * j);
    assert(0 <= j < size) by (nonlinear_arith)
        requires
            t == size * j + i,
            0 <= i < size,
            0 <= t < size * size,
    ;
    let d = (t as usize, t as usize, center);
    let l = (t as usize, (t - 1) as usize, neighbor);
    let r = (t as usize, (t + 1) as usize, neighbor);
    let b = (t as usize, (t - size) as usize, neighbor);
    let a = (t as usize, (t + size) as usize, neighbor);
    assert(j > 0 ==> t - size >= 0) by (nonlinear_arith)
        requires
            t == i + size * j,
            0 <= i,
            size >= 1,
    ;
    assert(j + 1 < size ==> t + size < size * size) by (nonlinear_arith)
        requires
            t == i + size * j,
            0 <= i < size,
            0 <= j,
    ;
    assert(t as usize == t);
    assert(i > 0 ==> (t - 1) as usize == t - 1);
    assert(i + 1 < size ==> (t + 1) as usize == t + 1) by (nonlinear_arith)
        requires
            t == i + size * j,
            0 <= j < size,
            0 <= i,
            size * size <= usize::MAX,
    ;
    assert(j > 0 ==> (t - size) as usize == t - size);
    assert(j + 1 < size ==> (t + size) as usize == t + size);
    let p0 = seq![d];
    let p1 = push_if(p0, i > 0, l);
    let p2 = push_if(p1, i + 1 < size, r);
    let p3 = push_if(p2, j > 0, b);
    let p4 = push_if(p3, j + 1 < size, a);
    assert(p4 == point_triplets(size, i, j, center, neighbor));
    assert forall|y: (usize, usize, V)| #[trigger] p1.contains(y) <==> (y == d || (i > 0 && y == l)) by {
        lemma_push_if_contains(p0, i > 0, l, y);
        if p0.contains(y) {
            let k = choose|k: int| 0 <= k < p0.len() && p0[k] == y;
        }
        if y == d {
            assert(p0[0] == d);
        }
    }
    assert forall|y: (usize, usize, V)| #[trigger] p2.contains(y) <==> (p1.contains(y) || (i + 1 < size && y == r)) by {
        lemma_push_if_contains(p1, i + 1 < size, r, y);
    }
    assert forall|y: (usize, usize, V)| #[trigger] p3.contains(y) <==> (p2.contains(y) || (j > 0 && y == b)) by {
        lemma_push_if_contains(p2, j > 0, b, y);
    }
    assert forall|y: (usize, usize, V)| #[trigger] p4.contains(y) <==> (p3.contains(y) || (j + 1 < size && y == a)) by {
        lemma_push_if_contains(p3, j + 1 < size, a, y);
    }
    assert forall|y: (usize, usize, V)| #[trigger] p4.contains(y) <==> in_point(size, t, y, center, neighbor) by {
        assert(p4.contains(y) <==> (p3.contains(y) || (j + 1 < size && y == a)));
        assert(p3.contains(y) <==> (p2.contains(y) || (j > 0 && y == b)));
        assert(p2.contains(y) <==> (p1.contains(y) || (i + 1 < size && y == r)));
        assert(p1.contains(y) <==> (y == d || (i > 0 && y == l)));
    }
    assert(keys_distinct(p0));
    lemma_push_if_distinct(p0, i > 0, l);
    assert(i + 1 < size ==> forall|k: int| 0 <= k < p1.len() ==> key_of(#[trigger] p1[k]) != key_of(r)) by {
        if i + 1 < size {
            assert forall|k: int| 0 <= k < p1.len() implies key_of(#[trigger] p1[k]) != key_of(r) by {
                assert(p1.contains(p1[k]));
            }
        }
    }
    lemma_push_if_distinct(p1, i + 1 < size, r);
    assert(j > 0 ==> forall|k: int| 0 <= k < p2.len() ==> key_of(#[trigger] p2[k]) != key_of(b)) by {
        if j > 0 {
            assert forall|k: int| 0 <= k < p2.len() implies key_of(#[trigger] p2[k]) != key_of(b) by {
                assert(p2.contains(p2[k]));
                assert(p1.contains(p2[k]) || (i + 1 < size && p2[k] == r));
            }
        }
    }
    lemma_push_if_distinct(p2, j > 0, b);
    assert(j + 1 < size ==> forall|k: int| 0 <= k < p3.len() ==> key_of(#[trigger] p3[k]) != key_of(a)) by {
        if j + 1 < size {
            assert forall|k: int| 0 <= k < p3.len() implies key_of(#[trigger] p3[k]) != key_of(a) by {
                assert(p3.contains(p3[k]));
                assert(p2.contains(p3[k]) || (j > 0 && p3[k] == b));
                assert(p1.contains(p3[k]) || (i + 1 < size && p3[k] == r) || (j > 0 && p3[k] == b));
            }
        }
    }
    lemma_push_if_distinct(p3, j + 1 < size, a);
}

proof fn lemma_concat_contains<A>(a: Seq<A>, b: Seq<A>, y: A)
    ensures
        (a + b).contains(y) == (a.contains(y) || b.contains(y)),
{
    let c = a + b;
    if a.contains(y) {
        let k = choose|k: int| 0 <= k < a.len() && a[k] == y;
        assert(c[k] == y);
    }
    if b.contains(y) {
        let k = choose|k: int| 0 <= k < b.len() && b[k] == y;
        assert(c[a.len() + k] == y);
    }
    if c.contains(y) {
        let k = choose|k: int| 0 <= k < c.len() && c[k] == y;
        if k < a.len() {
            assert(a[k] == y);
        } else {
            assert(b[k - a.len()] == y);
        }
    }
}

/// The first `count` grid points push no coordinate twice, and a triplet is
/// among theirs exactly when its row is one of those points and the point
/// pushes it.
proof fn lemma_stencil_facts<V>(size: int, count: int, center: V, neighbor: V)
    requires
        1 <= size,
        0 <= count <= size * size,
        size * size <= usize::MAX,
    ensures
        keys_distinct(stencil_triplets(size, count, center, neighbor)),
        forall|y: (usize, usize, V)|
            #[trigger] stencil_triplets(size, count, center, neighbor).contains(y) <==> (y.0 < count
                && in_point(size, y.0 as int, y, center, neighbor)),
    decreases count,
{
    let e = stencil_triplets(size, count, center, neighbor);
    if count == 0 {
        assert forall|y: (usize, usize, V)| #[trigger] e.contains(y) <==> (y.0 < count && in_point(
            size,
            y.0 as int,
            y,
            center,
            neighbor,
        )) by {
            if e.contains(y) {
                let k = choose|k: int| 0 <= k < e.len() && e[k] == y;
            }
        }
    } else {
        let t = count - 1;
        lemma_stencil_facts(size, t, center, neighbor);
        lemma_point_facts(size, t, center, neighbor);
        let a = stencil_triplets(size, t, center, neighbor);
        let b = point_triplets(size, t % size, t / size, center, neighbor);
        assert(e == a + b);
        assert forall|y: (usize, usize, V)| #[trigger] e.contains(y) <==> (y.0 < count && in_point(
            size,
            y.0 as int,
            y,
            center,
            neighbor,
        )) by {
            lemma_concat_contains(a, b, y);
            assert(b.contains(y) <==> in_point(size, t, y, center, neighbor));
            if in_point(size, t, y, center, neighbor) {
                assert(y.0 == t);
            }
            if y.0 == t {
                assert(in_point(size, y.0 as int, y, center, neighbor) == in_point(size, t, y, center, neighbor));
            }
        }
        assert forall|x: int, z: int| 0 <= x < z < e.len() implies key_of(#[trigger] e[x]) != key_of(
            #[trigger] e[z],
        ) by {
            if z < a.len() {
                assert(e[x] == a[x] && e[z] == a[z]);
            } else if x >= a.len() {
                assert(e[x] == b[x - a.len()] && e[z] == b[z - a.len()]);
            } else {
                assert(e[x] == a[x]);
                assert(e[z] == b[z - a.len()]);
                assert(a.contains(a[x]));
                assert(b.contains(b[z - a.len()]));
                assert(a[x].0 < t);
                assert(b[z - a.len()].0 == t);
            }
        }
    }
}

/// The five-point triplets of an `size × size` interior grid push no
/// coordinate twice, put `center` exactly on the diagonal and `neighbor` off
/// it, stay inside the `size² × size²` matrix, and are symmetric: with every
/// triplet `(r, c, v)` they also push `(c, r, v)`.
pub proof fn lemma_five_point_triplets<V>(size: int, center: V, neighbor: V)
    requires
        1 <= size,
        size * size <= usize::MAX,
    ensures
        ({
            let e = stencil_triplets(size, size * size, center, neighbor);
            &&& keys_distinct(e)
            &&& forall|k: int|
                0 <= k < e.len() ==> #[trigger] e[k].0 < size * size && e[k].1 < size * size && e[k].2
                    == (if e[k].0 == e[k].1 {
                    center
                } else {
                    neighbor
                }) && e.contains((e[k].1, e[k].0, e[k].2))
        }),
{
    let n = size * size;
    let e = stencil_triplets(size, n, center, neighbor);
    lemma_stencil_facts(size, n, center, neighbor);
    assert forall|k: int| 0 <= k < e.len() implies #[trigger] e[k].0 < n && e[k].1 < n && e[k].2 == (
    if e[k].0 == e[k].1 {
        center
    } else {
        neighbor
    }) && e.contains((e[k].1, e[k].0, e[k].2)) by {
        let y = e[k];
        assert(e.contains(y));
        let t = y.0 as int;
        lemma_point_facts(size, t, center, neighbor);
        let i = t % size;
        let j = t / size;
        assert(j > 0 ==> t - size >= 0) by (nonlinear_arith)
            requires
                t == i + size * j,
                0 <= i,
                size >= 1,
        ;
        assert(j + 1 < size ==> t + size < size * size) by (nonlinear_arith)
            requires
                t == i + size * j,
                0 <= i < size,
                0 <= j,
        ;
        assert(i + 1 < size ==> t + 1 < size * size) by (nonlinear_arith)
            requires
                t == i + size * j,
                0 <= j < size,
                0 <= i,
        ;
        assert(i > 0 ==> (t - 1) as usize == t - 1);
        assert(i + 1 < size ==> (t + 1) as usize == t + 1);
        assert(j > 0 ==> (t - size) as usize == t - size);
        assert(j + 1 < size ==> (t + size) as usize == t + size);
        let z = (y.1, y.0, y.2);
        assert(z.0 < n ==> (e.contains(z) <==> in_point(size, z.0 as int, z, center, neighbor)));
        if y == (t as usize, t as usize, center) {
            assert(z == y);
        } else if i > 0 && y == (t as usize, (t - 1) as usize, neighbor) {
            let t2 = t - 1;
            lemma_split(size, t2, i - 1, j);
            assert(in_point(size, t2, z, center, neighbor));
        } else if i + 1 < size && y == (t as usize, (t + 1) as usize, neighbor) {
            let t2 = t + 1;
            lemma_split(size, t2, i + 1, j);
            assert(in_point(size, t2, z, center, neighbor));
        } else if j > 0 && y == (t as usize, (t - size) as usize, neighbor) {
            let t2 = t - size;
            assert(t2 == i + size * (j - 1)) by (nonlinear_arith)
                requires
                    t2 == t - size,
                    t == i + size * j,
            ;
            lemma_split(size, t2, i, j - 1);
            assert(in_point(size, t2, z, center, neighbor));
        } else {
            assert(j + 1 < size && y == (t as usize, (t + size) as usize, neighbor));
            let t2 = t + size;
            assert(t2 == i + size * (j + 1)) by (nonlinear_arith)
                requires
                    t2 == t + size,
                    t == i + size * j,
            ;
            lemma_split(size, t2, i, j + 1);
            assert(in_point(size, t2, z, center, neighbor));
        }
        assert(e.contains(z));
    }
}

/// The matrix assembled from the five-point triplets, whatever the
/// combining function: every stored entry holds `center` on the diagonal and
/// `neighbor` off it, and the pattern is symmetric.
pub proof fn lemma_five_point_matrix<V, F: Fn(V, V) -> V>(
    size: int,
    center: V,
    neighbor: V,
    combine: F,
    pattern: SparseCsrPattern,
    values: Seq<V>,
)
    requires
        1 <= size,
        size * size <= usize::MAX,
        assembled(
            stencil_triplets(size, size * size, center, neighbor),
            (size * size) as usize,
            (size * size) as usize,
            combine,
            pattern,
            values,
        ),
    ensures
        forall|r: int, p: int|
            #![trigger pattern.offsets()[r], pattern.indices()[p]]
            0 <= r < size * size && pattern.offsets()[r] <= p < pattern.offsets()[r + 1] ==> values[p]
                == (if r == pattern.indices()[p] {
                center
            } else {
                neighbor
            }) && key_stored(
                pattern.offsets(),
                pattern.indices(),
                size * size,
                (pattern.indices()[p], r as usize),
            ),
{
    let n = size * size;
    let e = stencil_triplets(size, n, center, neighbor);
    let offsets = pattern.offsets();
    let indices = pattern.indices();
    lemma_five_point_triplets(size, center, neighbor);
    assert forall|r: int, p: int|
        #![trigger offsets[r], indices[p]]
        0 <= r < n && offsets[r] <= p < offsets[r + 1] implies values[p] == (if r == indices[p] {
        center
    } else {
        neighbor
    }) && key_stored(offsets, indices, n, (indices[p], r as usize)) by {
        assert(stored_key_valid(e, combine, offsets, indices, values, r, p));
        let key = (r as usize, indices[p]);
        assert(key_pushed(e, e.len() as int, key));
        let k = choose|k: int| 0 <= k < e.len() && #[trigger] key_of(e[k]) == key;
        lemma_pushed_values_single(e, e.len() as int, k);
        assert(pushed_values(e, e.len() as int, key) == seq![e[k].2]);
        assert(folds_to(combine, seq![e[k].2], values[p]));
        assert(e[k].0 < n);
        let z = (e[k].1, e[k].0, e[k].2);
        assert(e.contains(z));
        let k2 = choose|k2: int| 0 <= k2 < e.len() && e[k2] == z;
        assert(key_stored(offsets, indices, n, key_of(e[k2])));
        assert(key_of(e[k2]) == (indices[p], r as usize));
    }
}

/// 1 when `c` holds, else 0.
pub open spec fn indicator(c: bool) -> int {
    if c {
        1
    } else {
        0
    }
}

/// Number of triplets grid point `(i, j)` pushes: the diagonal and one per
/// grid neighbour.
pub open spec fn point_count(size: int, i: int, j: int) -> int {
    1 + indicator(i > 0) + indicator(i + 1 < size) + indicator(j > 0) + indicator(j + 1 < size)
}

/// Number of triplets the points of the first `j` grid columns push, for
/// `0 <= j <= size`.
pub open spec fn columns_count(size: int, j: int) -> int {
    j * (3 * size - 2) + size * (if j > 0 {
        j - 1
    } else {
        0
    }) + size * (if j < size {
        j
    } else {
        size - 1
    })
}

/// Number of triplets pushed before grid point `(i, j)`, for `0 <= i < size`.
pub open spec fn count_before(size: int, i: int, j: int) -> int {
    columns_count(size, j) + i * (1 + indicator(j > 0) + indicator(j + 1 < size)) + (if i > 0 {
        i - 1
    } else {
        0
    }) + i
}

proof fn lemma_point_count<V>(size: int, i: int, j: int, center: V, neighbor: V)
    ensures
        point_triplets(size, i, j, center, neighbor).len() == point_count(size, i, j),
{
}

proof fn lemma_count_before<V>(size: int, i: int, j: int, center: V, neighbor: V)
    requires
        1 <= size,
        0 <= i < size,
        0 <= j <= size,
        j == size ==> i == 0,
    ensures
        stencil_triplets(size, i + size * j, center, neighbor).len() == count_before(size, i, j),
    decreases j, i,
{
    let t = i + size * j;
    if i == 0 && j == 0 {
        assert(size * j == 0) by (nonlinear_arith)
            requires
                j == 0,
        ;
        assert(t == 0);
    } else {
        let (pi, pj) = if i > 0 {
            (i - 1, j)
        } else {
            (size - 1, j - 1)
        };
        if i > 0 {
            assert(pi + size * pj == t - 1);
        } else {
            assert(pi + size * pj == t - 1) by (nonlinear_arith)
                requires
                    t == size * j,
                    pi == size - 1,
                    pj == j - 1,
            ;
        }
        assert(t >= 1) by (nonlinear_arith)
            requires
                t == i + size * j,
                i > 0 || j > 0,
                0 <= i,
                0 <= j,
                size >= 1,
        ;
        lemma_count_before(size, pi, pj, center, neighbor);
        lemma_split(size, t - 1, pi, pj);
        lemma_point_count(size, pi, pj, center, neighbor);
        assert(stencil_triplets(size, t, center, neighbor).len() == stencil_triplets(
            size,
            t - 1,
            center,
            neighbor,
        ).len() + point_count(size, pi, pj));
        let x = 1 + indicator(pj > 0) + indicator(pj + 1 < size);
        if i > 0 {
            assert(i * x == pi * x + x) by (nonlinear_arith)
                requires
                    pi == i - 1,
            ;
        } else {
            assert(i * (1 + indicator(j > 0) + indicator(j + 1 < size)) == 0) by (nonlinear_arith)
                requires
                    i == 0,
            ;
            assert(columns_count(size, j) == columns_count(size, pj) + (3 * size - 2) + size
                * indicator(pj > 0) + size * indicator(pj + 1 < size)) by (nonlinear_arith)
                requires
                    pj == j - 1,
                    0 <= pj < size,
                    size >= 1,
            ;
            assert(pi * x + x == size + size * indicator(pj > 0) + size * indicator(pj + 1 < size))
                by (nonlinear_arith)
                requires
                    pi == size - 1,
                    x == 1 + indicator(pj > 0) + indicator(pj + 1 < size),
            ;
        }
        assert(count_before(size, i, j) == count_before(size, pi, pj) + point_count(size, pi, pj));
    }
}

/// The five-point triplets of an `m × m` grid number `5m² − 4m`: one
/// diagonal entry per unknown and one entry per ordered pair of grid
/// neighbours.
pub proof fn lemma_five_point_count<V>(size: int, center: V, neighbor: V)
    requires
        1 <= size,
    ensures
        stencil_triplets(size, size * size, center, neighbor).len() == 5 * size * size - 4 * size,
{
    lemma_count_before(size, 0, size, center, neighbor);
    assert(columns_count(size, size) == 5 * size * size - 4 * size) by (nonlinear_arith)
        requires
            size >= 1,
    ;
}

/// The assembled five-point matrix of an `m × m` grid stores `5m² − 4m`
/// entries, whatever the combining function.
pub proof fn lemma_five_point_nnz<V, F: Fn(V, V) -> V>(
    size: int,
    center: V,
    neighbor: V,
    combine: F,
    pattern: SparseCsrPattern,
    values: Seq<V>,
)
    requires
        1 <= size,
        size * size <= usize::MAX,
        assembled(
            stencil_triplets(size, size * size, center, neighbor),
            (size * size) as usize,
            (size * size) as usize,
            combine,
            pattern,
            values,
        ),
    ensures
        pattern.indices().len() == 5 * size * size - 4 * size,
{
    lemma_five_point_triplets(size, center, neighbor);
    lemma_five_point_count(size, center, neighbor);
    lemma_assembled_count(
        stencil_triplets(size, size * size, center, neighbor),
        (size * size) as usize,
        (size * size) as usize,
        combine,
        pattern,
        values,
    );
}

/// What the matrix-free operator reads for unknown `t` of a
/// `size × size` grid: the value at `t`, then the values of the neighbours
/// below and above in `i` and below and above in `j`, each `None` where the
/// neighbour lies on the Dirichlet boundary.
pub open spec fn stencil_inputs<X>(input: Seq<X>, size: int, t: int) -> (
    X,
    Option<X>,
    Option<X>,
    Option<X>,
    Option<X>,
) {
    let i = t % size;
    let j = t / size;
    (
        input[t],
        if i > 0 {
            Some(input[t - 1])
        } else {
            None
        },
        if i + 1 < size {
            Some(input[t + 1])
        } else {
            None
        },
        if j > 0 {
            Some(input[t - size])
        } else {
            None
        },
        if j + 1 < size {
            Some(input[t + size])
        } else {
            None
        },
    )
}

/// Column `c` of row `t` belongs to the five-point stencil: the diagonal or
/// a neighbour inside the grid.
pub open spec fn stencil_column(size: int, t: int, c: int) -> bool {
    let i = t % size;
    let j = t / size;
    ||| c == t
    ||| (i > 0 && c == t - 1)
    ||| (i + 1 < size && c == t + 1)
    ||| (j > 0 && c == t - size)
    ||| (j + 1 < size && c == t + size)
}

/// The matrix-free five-point operator on a `size × size` interior grid:
/// entry `t` of the result is `point` applied to what the stencil reads for
/// unknown `t`. An input whose length is not `size²` is refused.
pub fn five_point_apply<X: Copy, Y, F: Fn(X, Option<X>, Option<X>, Option<X>, Option<X>) -> Y>(
    interior_size: usize,
    input: &[X],
    point: F,
) -> (r: Result<Vec<Y>, OperatorError>)
    requires
        interior_size * interior_size <= usize::MAX,
        forall|c: X, l: Option<X>, rt: Option<X>, b: Option<X>, a: Option<X>|
            call_requires(point, (c, l, rt, b, a)),
    ensures
        ({
            let n = interior_size * interior_size;
            match r {
                Ok(out) => input@.len() == n && out@.len() == n && forall|t: int|
                    0 <= t < n ==> call_ensures(
                        point,
                        stencil_inputs(input@, interior_size as int, t),
                        #[trigger] out@[t],
                    ),
                Err(e) => input@.len() != n && e == OperatorError::DimensionMismatch {
                    name: "input",
                    expected: n as usize,
                    actual: input@.len() as usize,
                },
            }
        }),
{
    let size = interior_size;
    let unknowns = size * size;
    let len = input.len();
    if len != unknowns {
        return Err(OperatorError::DimensionMismatch { name: "input", expected: unknowns, actual: len });
    }
    let mut out: Vec<Y> = Vec::new();
    let mut j: usize = 0;
    while j < size
        invariant
            unknowns == size * size,
            len == input@.len(),
            len == unknowns,
            forall|c: X, l: Option<X>, rt: Option<X>, b: Option<X>, a: Option<X>|
                call_requires(point, (c, l, rt, b, a)),
            j <= size,
            out@.len() == size * j,
            forall|t: int|
                0 <= t < size * j ==> call_ensures(
                    point,
                    stencil_inputs(input@, size as int, t),
                    #[trigger] out@[t],
                ),
        decreases size - j,
    {
        let mut i: usize = 0;
        while i < size
            invariant
                unknowns == size * size,
                len == input@.len(),
                len == unknowns,
                forall|c: X, l: Option<X>, rt: Option<X>, b: Option<X>, a: Option<X>|
                    call_requires(point, (c, l, rt, b, a)),
                j < size,
                i <= size,
                out@.len() == size * j + i,
                forall|t: int|
                    0 <= t < size * j + i ==> call_ensures(
                        point,
                        stencil_inputs(input@, size as int, t),
                        #[trigger] out@[t],
                    ),
            decreases size - i,
        {
            proof {
                lemma_point_in_grid(i as int, j as int, size as int);
                assert(j > 0 ==> size * j >= size) by (nonlinear_arith)
                    requires
                        size >= 0,
                        j >= 0,
                ;
                assert(j + 1 < size ==> i + size * j + size < size * size) by (nonlinear_arith)
                    requires
                        0 <= i < size,
                        0 <= j,
                ;
                lemma_split(size as int, i + size * j, i as int, j as int);
            }
            let index = idx(i, j, size);
            let left = if i > 0 { Some(input[index - 1]) } else { None };
            let right = if i + 1 < size { Some(input[index + 1]) } else { None };
            let below = if j > 0 { Some(input[index - size]) } else { None };
            let above = if j + 1 < size { Some(input[index + size]) } else { None };
            let value = point(input[index], left, right, below, above);
            proof {
                assert((input@[index as int], left, right, below, above) == stencil_inputs(
                    input@,
                    size as int,
                    index as int,
                ));
            }
            out.push(value);
            i += 1;
        }
        proof {
            assert(size * j + size == size * (j + 1)) by (nonlinear_arith);
        }
        j += 1;
    }
    Ok(out)
}

/// The matrix-free operator and the assembled five-point matrix agree on
/// the structure: row `t` of the matrix stores column `c` exactly when the
/// stencil of unknown `t` reads unknown `c`.
pub proof fn lemma_matrix_free_matches_pattern<V, F: Fn(V, V) -> V>(
    size: int,
    center: V,
    neighbor: V,
    combine: F,
    pattern: SparseCsrPattern,
    values: Seq<V>,
    t: int,
    c: usize,
)
    requires
        1 <= size,
        size * size <= usize::MAX,
        0 <= t < size * size,
        assembled(
            stencil_triplets(size, size * size, center, neighbor),
            (size * size) as usize,
            (size * size) as usize,
            combine,
            pattern,
            values,
        ),
    ensures
        key_stored(pattern.offsets(), pattern.indices(), size * size, (t as usize, c))
            <==> stencil_column(size, t, c as int),
{
    let n = size * size;
    let e = stencil_triplets(size, n, center, neighbor);
    let key = (t as usize, c);
    lemma_stencil_facts(size, n, center, neighbor);
    lemma_point_facts(size, t, center, neighbor);
    lemma_stored_iff_pushed(e, n as usize, n as usize, combine, pattern, values, key);
    let i = t % size;
    let j = t / size;
    assert(j > 0 ==> t - size >= 0) by (nonlinear_arith)
        requires
            t == i + size * j,
            0 <= i,
            size >= 1,
    ;
    assert(j + 1 < size ==> t + size < size * size) by (nonlinear_arith)
        requires
            t == i + size * j,
            0 <= i < size,
            0 <= j,
    ;
    assert(i + 1 < size ==> t + 1 < size * size) by (nonlinear_arith)
        requires
            t == i + size * j,
            0 <= j < size,
            0 <= i,
    ;
    assert(i > 0 ==> (t - 1) as usize == t - 1);
    assert(i + 1 < size ==> (t + 1) as usize == t + 1);
    assert(j > 0 ==> (t - size) as usize == t - size);
    assert(j + 1 < size ==> (t + size) as usize == t + size);
    if key_pushed(e, e.len() as int, key) {
        let k = choose|k: int| 0 <= k < e.len() && #[trigger] key_of(e[k]) == key;
        assert(e.contains(e[k]));
        assert(in_point(size, t, e[k], center, neighbor));
    }
    if stencil_column(size, t, c as int) {
        let y = (t as usize, c, if c as int == t { center } else { neighbor });
        assert(in_point(size, t, y, center, neighbor));
        assert(e.contains(y));
        let k = choose|k: int| 0 <= k < e.len() && e[k] == y;
        assert(key_of(e[k]) == key);
    }
}

/// The matrix-free operator reads the grid neighbours of each point: for
/// grid point `(i, j)`, unknown `i + size·j`, it passes the value at
/// `(i, j)`, then the values at `(i − 1, j)`, `(i + 1, j)`, `(i, j − 1)` and
/// `(i, j + 1)`, each exactly when that point lies inside the grid.
pub proof fn lemma_matrix_free_reads_grid_neighbours<X>(input: Seq<X>, size: int, i: int, j: int)
    requires
        1 <= size,
        0 <= i < size,
        0 <= j < size,
    ensures
        stencil_inputs(input, size, i + size * j) == (
            input[i + size * j],
            if 1 <= i {
                Some(input[(i - 1) + size * j])
            } else {
                None
            },
            if i <= size - 2 {
                Some(input[(i + 1) + size * j])
            } else {
                None
            },
            if 1 <= j {
                Some(input[i + size * (j - 1)])
            } else {
                None
            },
            if j <= size - 2 {
                Some(input[i + size * (j + 1)])
            } else {
                None
            },
        ),
{
    let t = i + size * j;
    lemma_split(size, t, i, j);
    assert(t - size == i + size * (j - 1) && t + size == i + size * (j + 1)) by (nonlinear_arith)
        requires
            t == i + size * j,
    ;
}

/// The unknowns whose values the matrix-free operator passes for unknown `t`.
pub open spec fn reads_column(size: int, t: int, c: int) -> bool {
    let ids = Seq::new((size * size) as nat, |k: int| k);
    let r = stencil_inputs(ids, size, t);
    ||| r.0 == c
    ||| r.1 == Some(c)
    ||| r.2 == Some(c)
    ||| r.3 == Some(c)
    ||| r.4 == Some(c)
}

/// The matrix-free operator and the assembled five-point matrix agree on
/// every row: the unknowns whose values the operator passes for unknown `t`
/// are exactly the columns stored in row `t` of the assembled matrix.
pub proof fn lemma_matrix_free_reads_assembled_row<V, F: Fn(V, V) -> V>(
    size: int,
    center: V,
    neighbor: V,
    combine: F,
    pattern: SparseCsrPattern,
    values: Seq<V>,
    t: int,
    c: usize,
)
    requires
        1 <= size,
        size * size <= usize::MAX,
        0 <= t < size * size,
        assembled(
            stencil_triplets(size, size * size, center, neighbor),
            (size * size) as usize,
            (size * size) as usize,
            combine,
            pattern,
            values,
        ),
    ensures
        reads_column(size, t, c as int) <==> key_stored(
            pattern.offsets(),
            pattern.indices(),
            size * size,
            (t as usize, c),
        ),
{
    lemma_matrix_free_matches_pattern(size, center, neighbor, combine, pattern, values, t, c);
    let n = size * size;
    let ids = Seq::new(n as nat, |k: int| k);
    let i = t % size;
    let j = t / size;
    vstd::arithmetic::div_mod::lemma_fundamental_div_mod(t, size);
    vstd::arithmetic::div_mod::lemma_mod_bound(t, size);
    assert(0 <= j < size) by (nonlinear_arith)
        requires
            t == size * j + i,
            0 <= i < size,
            0 <= t < size * size,
    ;
    assert(j > 0 ==> t - size >= 0) by (nonlinear_arith)
        requires
            t == i + size * j,
            0 <= i,
            size >= 1,
    ;
    assert(j + 1 < size ==> t + size < size * size) by (nonlinear_arith)
        requires
            t == i + size * j,
            0 <= i < size,
            0 <= j,
    ;
    assert(i + 1 < size ==> t + 1 < size * size) by (nonlinear_arith)
        requires
            t == i + size * j,
            0 <= j < size,
            0 <= i,
    ;
    assert(reads_column(size, t, c as int) <==> stencil_column(size, t, c as int));
}

} // verus!
