//! Triplet (COO) assembly into canonical CSR.
//!
//! Entries are pushed in any order; `build` stores each distinct
//! coordinate once, in row-major order, and combines the values pushed for a
//! coordinate in the order they were pushed.

use std::sync::Arc;
use vstd::prelude::*;
use crate::sparse::{
    lemma_rows_check_rows, offsets_nondecreasing, pattern_check, row_in_bounds, row_ok, row_sorted,
    rows_check, OperatorError,
    PatternError, SparseCsrPattern, SparseCsrTensor,
};

verus! {

/// Row-major strict order on `(row, column)` coordinates.
pub open spec fn key_lt(a: (usize, usize), b: (usize, usize)) -> bool {
    a.0 < b.0 || (a.0 == b.0 && a.1 < b.1)
}

/// The coordinates strictly increase in row-major order (so none repeats).
pub open spec fn keys_sorted(keys: Seq<(usize, usize)>) -> bool {
    forall|i: int, j: int| 0 <= i < j < keys.len() ==> key_lt(#[trigger] keys[i], #[trigger] keys[j])
}

/// The coordinate of a triplet.
pub open spec fn key_of<V>(e: (usize, usize, V)) -> (usize, usize) {
    (e.0, e.1)
}

/// Some triplet among the first `n` has coordinate `key`.
pub open spec fn key_pushed<V>(entries: Seq<(usize, usize, V)>, n: int, key: (usize, usize)) -> bool {
    exists|k: int| 0 <= k < n && #[trigger] key_of(entries[k]) == key
}

fn key_less(a: (usize, usize), b: (usize, usize)) -> (r: bool)
    ensures
        r == key_lt(a, b),
{
    a.0 < b.0 || (a.0 == b.0 && a.1 < b.1)
}

/// Number of stored coordinates below `key`, and whether `key` is stored.
fn lower_bound(keys: &Vec<(usize, usize)>, key: (usize, usize)) -> (r: (usize, bool))
    requires
        keys_sorted(keys@),
    ensures
        r.0 <= keys@.len(),
        forall|i: int| 0 <= i < r.0 ==> key_lt(#[trigger] keys@[i], key),
        forall|i: int| r.0 <= i < keys@.len() ==> !key_lt(#[trigger] keys@[i], key),
        r.1 == (r.0 < keys@.len() && keys@[r.0 as int] == key),
{
    let mut lo: usize = 0;
    let mut hi: usize = keys.len();
    while lo < hi
        invariant
            lo <= hi <= keys@.len(),
            keys_sorted(keys@),
            forall|i: int| 0 <= i < lo ==> key_lt(#[trigger] keys@[i], key),
            forall|i: int| hi <= i < keys@.len() ==> !key_lt(#[trigger] keys@[i], key),
        decreases hi - lo,
    {
        let mid = lo + (hi - lo) / 2;
        if key_less(keys[mid], key) {
            proof {
                assert forall|i: int| 0 <= i < mid + 1 implies key_lt(#[trigger] keys@[i], key) by {
                    if i < mid {
                        assert(key_lt(keys@[i], keys@[mid as int]));
                    }
                }
            }
            lo = mid + 1;
        } else {
            proof {
                assert forall|i: int| mid <= i < keys@.len() implies !key_lt(#[trigger] keys@[i], key) by {
                    if i > mid {
                        assert(key_lt(keys@[mid as int], keys@[i]));
                    }
                }
            }
            hi = mid;
        }
    }
    let found = lo < keys.len() && keys[lo].0 == key.0 && keys[lo].1 == key.1;
    (lo, found)
}

/// Some triplet among those at positions `lo .. hi` has coordinate `key`.
pub open spec fn key_among<V>(entries: Seq<(usize, usize, V)>, lo: int, hi: int, key: (usize, usize)) -> bool {
    exists|k: int| lo <= k < hi && #[trigger] key_of(entries[k]) == key
}

/// The union of two strictly increasing coordinate sequences, strictly
/// increasing.
fn merge_keys(a: Vec<(usize, usize)>, b: Vec<(usize, usize)>) -> (r: Vec<(usize, usize)>)
    requires
        keys_sorted(a@),
        keys_sorted(b@),
    ensures
        keys_sorted(r@),
        forall|p: int| 0 <= p < r@.len() ==> a@.contains(#[trigger] r@[p]) || b@.contains(r@[p]),
        forall|t: int| 0 <= t < a@.len() ==> r@.contains(#[trigger] a@[t]),
        forall|t: int| 0 <= t < b@.len() ==> r@.contains(#[trigger] b@[t]),
{
    let mut out: Vec<(usize, usize)> = Vec::new();
    let mut i: usize = 0;
    let mut j: usize = 0;
    while i < a.len() || j < b.len()
        invariant
            keys_sorted(a@),
            keys_sorted(b@),
            keys_sorted(out@),
            i <= a@.len(),
            j <= b@.len(),
            forall|p: int| 0 <= p < out@.len() ==> a@.contains(#[trigger] out@[p]) || b@.contains(out@[p]),
            forall|t: int| 0 <= t < i ==> out@.contains(#[trigger] a@[t]),
            forall|t: int| 0 <= t < j ==> out@.contains(#[trigger] b@[t]),
            out@.len() > 0 && i < a@.len() ==> key_lt(out@.last(), a@[i as int]),
            out@.len() > 0 && j < b@.len() ==> key_lt(out@.last(), b@[j as int]),
        decreases a@.len() + b@.len() - i - j,
    {
        let ghost before = out@;
        let take_a = j >= b.len() || (i < a.len() && key_less(a[i], b[j]));
        let take_b = !take_a && (i >= a.len() || key_less(b[j], a[i]));
        let next = if take_a || !take_b {
            a[i]
        } else {
            b[j]
        };
        out.push(next);
        proof {
            assert forall|x: int, y: int| 0 <= x < y < out@.len() implies key_lt(
                #[trigger] out@[x],
                #[trigger] out@[y],
            ) by {
                if y == out@.len() - 1 && x < y {
                    if x < before.len() - 1 {
                        assert(key_lt(before[x], before.last()));
                    }
                }
            }
            assert(out@[out@.len() - 1] == next);
            assert forall|t: int| 0 <= t < before.len() implies out@[t] == before[t] by {}
            assert(out@.contains(next));
            assert forall|p: int| 0 <= p < out@.len() implies a@.contains(#[trigger] out@[p])
                || b@.contains(out@[p]) by {
                if p < before.len() {
                    assert(out@[p] == before[p]);
                } else if take_a || !take_b {
                    assert(a@[i as int] == out@[p]);
                } else {
                    assert(b@[j as int] == out@[p]);
                }
            }
            assert forall|t: int| 0 <= t < before.len() implies out@.contains(#[trigger] before[t]) by {
                assert(out@[t] == before[t]);
            }
        }
        if take_a {
            proof {
                assert forall|t: int| 0 <= t < i + 1 implies out@.contains(#[trigger] a@[t]) by {
                    if t < i {
                        let q = choose|q: int| 0 <= q < before.len() && before[q] == a@[t];
                        assert(out@[q] == before[q]);
                    }
                }
                assert forall|t: int| 0 <= t < j implies out@.contains(#[trigger] b@[t]) by {
                    let q = choose|q: int| 0 <= q < before.len() && before[q] == b@[t];
                    assert(out@[q] == before[q]);
                }
                if i + 1 < a@.len() {
                    assert(key_lt(a@[i as int], a@[i + 1]));
                }
            }
            i += 1;
        } else if take_b {
            proof {
                assert forall|t: int| 0 <= t < i implies out@.contains(#[trigger] a@[t]) by {
                    let q = choose|q: int| 0 <= q < before.len() && before[q] == a@[t];
                    assert(out@[q] == before[q]);
                }
                assert forall|t: int| 0 <= t < j + 1 implies out@.contains(#[trigger] b@[t]) by {
                    if t < j {
                        let q = choose|q: int| 0 <= q < before.len() && before[q] == b@[t];
                        assert(out@[q] == before[q]);
                    }
                }
                if j + 1 < b@.len() {
                    assert(key_lt(b@[j as int], b@[j + 1]));
                }
            }
            j += 1;
        } else {
            proof {
                assert(a@[i as int] == b@[j as int]);
                assert forall|t: int| 0 <= t < i + 1 implies out@.contains(#[trigger] a@[t]) by {
                    if t < i {
                        let q = choose|q: int| 0 <= q < before.len() && before[q] == a@[t];
                        assert(out@[q] == before[q]);
                    }
                }
                assert forall|t: int| 0 <= t < j + 1 implies out@.contains(#[trigger] b@[t]) by {
                    if t < j {
                        let q = choose|q: int| 0 <= q < before.len() && before[q] == b@[t];
                        assert(out@[q] == before[q]);
                    }
                }
                if i + 1 < a@.len() {
                    assert(key_lt(a@[i as int], a@[i + 1]));
                }
                if j + 1 < b@.len() {
                    assert(key_lt(b@[j as int], b@[j + 1]));
                }
            }
            i += 1;
            j += 1;
        }
    }
    out
}

/// The distinct coordinates of the triplets at positions `lo .. hi`, in
/// row-major order, by merge sort.
fn sorted_keys<V: Copy>(entries: &Vec<(usize, usize, V)>, lo: usize, hi: usize) -> (keys: Vec<
    (usize, usize),
>)
    requires
        lo < hi <= entries@.len(),
    ensures
        keys_sorted(keys@),
        forall|p: int| 0 <= p < keys@.len() ==> key_among(entries@, lo as int, hi as int, #[trigger] keys@[p]),
        forall|k: int| lo <= k < hi ==> keys@.contains(#[trigger] key_of(entries@[k])),
    decreases hi - lo,
{
    if hi - lo == 1 {
        let keys = vec![(entries[lo].0, entries[lo].1)];
        proof {
            assert(keys@[0] == key_of(entries@[lo as int]));
            assert forall|k: int| lo <= k < hi implies keys@.contains(#[trigger] key_of(entries@[k])) by {
                assert(k == lo);
                assert(keys@[0] == key_of(entries@[k]));
            }
        }
        keys
    } else {
        let mid = lo + (hi - lo) / 2;
        let left = sorted_keys(entries, lo, mid);
        let right = sorted_keys(entries, mid, hi);
        let ghost l = left@;
        let ghost rt = right@;
        let keys = merge_keys(left, right);
        proof {
            assert forall|p: int| 0 <= p < keys@.len() implies key_among(
                entries@,
                lo as int,
                hi as int,
                #[trigger] keys@[p],
            ) by {
                if l.contains(keys@[p]) {
                    let q = choose|q: int| 0 <= q < l.len() && l[q] == keys@[p];
                    assert(key_among(entries@, lo as int, mid as int, l[q]));
                } else {
                    let q = choose|q: int| 0 <= q < rt.len() && rt[q] == keys@[p];
                    assert(key_among(entries@, mid as int, hi as int, rt[q]));
                }
            }
            assert forall|k: int| lo <= k < hi implies keys@.contains(#[trigger] key_of(entries@[k])) by {
                if k < mid {
                    assert(l.contains(key_of(entries@[k])));
                    let q = choose|q: int| 0 <= q < l.len() && l[q] == key_of(entries@[k]);
                    assert(keys@.contains(l[q]));
                } else {
                    assert(rt.contains(key_of(entries@[k])));
                    let q = choose|q: int| 0 <= q < rt.len() && rt[q] == key_of(entries@[k]);
                    assert(keys@.contains(rt[q]));
                }
            }
        }
        keys
    }
}

/// The distinct coordinates of `entries`, in row-major order.
fn distinct_sorted_keys<V: Copy>(entries: &Vec<(usize, usize, V)>) -> (keys: Vec<(usize, usize)>)
    ensures
        keys_sorted(keys@),
        forall|i: int| 0 <= i < keys@.len() ==> key_pushed(entries@, entries@.len() as int, #[trigger] keys@[i]),
        forall|k: int| 0 <= k < entries@.len() ==> keys@.contains(#[trigger] key_of(entries@[k])),
{
    let n = entries.len();
    if n == 0 {
        return Vec::new();
    }
    let keys = sorted_keys(entries, 0, n);
    proof {
        assert forall|i: int| 0 <= i < keys@.len() implies key_pushed(
            entries@,
            entries@.len() as int,
            #[trigger] keys@[i],
        ) by {
            assert(key_among(entries@, 0, n as int, keys@[i]));
            let k = choose|k: int| 0 <= k < n && #[trigger] key_of(entries@[k]) == keys@[i];
            assert(key_of(entries@[k]) == keys@[i]);
        }
    }
    keys
}

/// Every stored coordinate before `pos` lies in a row below `row`, and every
/// one from `pos` on lies in row `row` or later.
pub open spec fn splits_at(keys: Seq<(usize, usize)>, row: int, pos: int) -> bool {
    &&& 0 <= pos <= keys.len()
    &&& forall|i: int| 0 <= i < pos ==> (#[trigger] keys[i]).0 < row
    &&& forall|i: int| pos <= i < keys.len() ==> (#[trigger] keys[i]).0 >= row
}

/// CSR row offsets and column indices of sorted distinct coordinates.
fn csr_from_keys(keys: &Vec<(usize, usize)>, rows: usize) -> (r: (Vec<usize>, Vec<usize>))
    requires
        keys_sorted(keys@),
        forall|i: int| 0 <= i < keys@.len() ==> (#[trigger] keys@[i]).0 < rows,
    ensures
        r.0@.len() == rows + 1,
        r.0@[rows as int] == keys@.len(),
        forall|q: int| 0 <= q <= rows ==> splits_at(keys@, q, #[trigger] r.0@[q] as int),
        r.1@.len() == keys@.len(),
        forall|p: int| 0 <= p < keys@.len() ==> #[trigger] r.1@[p] == keys@[p].1,
{
    let m = keys.len();
    let mut offsets: Vec<usize> = Vec::new();
    let mut p: usize = 0;
    let mut row: usize = 0;
    while row < rows
        invariant
            m == keys@.len(),
            keys_sorted(keys@),
            forall|i: int| 0 <= i < keys@.len() ==> (#[trigger] keys@[i]).0 < rows,
            row <= rows,
            offsets@.len() == row,
            splits_at(keys@, row as int, p as int),
            forall|q: int| 0 <= q < row ==> splits_at(keys@, q, #[trigger] offsets@[q] as int),
        decreases rows - row,
    {
        offsets.push(p);
        let ghost start = p;
        while p < m && keys[p].0 <= row
            invariant
                m == keys@.len(),
                start <= p <= m,
                keys_sorted(keys@),
                splits_at(keys@, row as int, start as int),
                forall|i: int| 0 <= i < p ==> (#[trigger] keys@[i]).0 < row + 1,
            decreases m - p,
        {
            p += 1;
        }
        proof {
            assert forall|i: int| p <= i < keys@.len() implies (#[trigger] keys@[i]).0 >= row + 1 by {
                if i > p {
                    assert(key_lt(keys@[p as int], keys@[i]));
                }
            }
        }
        row += 1;
    }
    proof {
        assert forall|i: int| 0 <= i < m implies (#[trigger] keys@[i]).0 < rows by {}
    }
    offsets.push(m);
    let mut indices: Vec<usize> = Vec::new();
    let mut i: usize = 0;
    while i < m
        invariant
            m == keys@.len(),
            i <= m,
            indices@.len() == i,
            forall|t: int| 0 <= t < i ==> #[trigger] indices@[t] == keys@[t].1,
        decreases m - i,
    {
        indices.push(keys[i].1);
        i += 1;
    }
    (offsets, indices)
}

/// Rows `row ..` that are in bounds and sorted pass the row checks.
proof fn lemma_rows_check_ok(
    offsets: Seq<usize>,
    indices: Seq<usize>,
    rows: int,
    columns: int,
    row: int,
)
    requires
        0 <= row <= rows,
        forall|q: int| row <= q < rows ==> #[trigger] row_ok(offsets, indices, columns, q),
    ensures
        rows_check(offsets, indices, rows, columns, row) == Ok::<(), PatternError>(()),
    decreases rows - row,
{
    if row < rows {
        assert(row_ok(offsets, indices, columns, row));
        lemma_rows_check_ok(offsets, indices, rows, columns, row + 1);
    }
}

/// Offsets that split sorted in-bounds coordinates by row, together with
/// their columns, form a canonical CSR pattern.
proof fn lemma_keys_canonical(
    keys: Seq<(usize, usize)>,
    shape: Seq<usize>,
    offsets: Seq<usize>,
    indices: Seq<usize>,
)
    requires
        shape.len() == 2,
        keys_sorted(keys),
        forall|i: int| 0 <= i < keys.len() ==> (#[trigger] keys[i]).0 < shape[0] && keys[i].1 < shape[1],
        offsets.len() == shape[0] + 1,
        offsets[shape[0] as int] == keys.len(),
        forall|q: int| 0 <= q <= shape[0] ==> splits_at(keys, q, #[trigger] offsets[q] as int),
        indices.len() == keys.len(),
        forall|p: int| 0 <= p < keys.len() ==> #[trigger] indices[p] == keys[p].1,
    ensures
        pattern_check(shape, offsets, indices) is Ok,
{
    let rows = shape[0] as int;
    let columns = shape[1] as int;
    assert(splits_at(keys, 0, offsets[0] as int));
    if offsets[0] > 0 {
        assert(keys[0].0 < 0);
    }
    assert forall|i: int| 0 <= i && i + 1 < offsets.len() implies #[trigger] offsets[i] <= offsets[i + 1] by {
        assert(splits_at(keys, i, offsets[i] as int));
        assert(splits_at(keys, i + 1, offsets[i + 1] as int));
        if offsets[i] > offsets[i + 1] {
            let t = offsets[i + 1] as int;
            assert(keys[t].0 < i);
            assert(keys[t].0 >= i + 1);
        }
    }
    assert(offsets_nondecreasing(offsets));
    assert forall|q: int| 0 <= q < rows implies #[trigger] row_ok(offsets, indices, columns, q) by {
        assert(splits_at(keys, q, offsets[q] as int));
        assert(splits_at(keys, q + 1, offsets[q + 1] as int));
        assert forall|p: int| offsets[q] <= p < offsets[q + 1] implies #[trigger] indices[p] < columns by {
            assert(keys[p].1 < columns);
        }
        assert forall|p: int| offsets[q] <= p && p + 1 < offsets[q + 1] implies #[trigger] indices[p] < indices[p + 1] by {
            assert(key_lt(keys[p], keys[p + 1]));
            assert(keys[p].0 >= q);
            assert(keys[p + 1].0 < q + 1);
        }
    }
    lemma_rows_check_ok(offsets, indices, rows, columns, 0);
}

/// The values pushed for `key` among the first `n` triplets, in push order.
pub open spec fn pushed_values<V>(entries: Seq<(usize, usize, V)>, n: int, key: (usize, usize)) -> Seq<V>
    decreases n,
{
    if n <= 0 {
        Seq::empty()
    } else if key_of(entries[n - 1]) == key {
        pushed_values(entries, n - 1, key).push(entries[n - 1].2)
    } else {
        pushed_values(entries, n - 1, key)
    }
}

/// `result` is a value that folding `values` from the left with `combine`
/// can produce: the first value alone, or `combine(acc, last)` where `acc`
/// folds all but the last value.
pub open spec fn folds_to<V, F: Fn(V, V) -> V>(combine: F, values: Seq<V>, result: V) -> bool
    decreases values.len(),
{
    if values.len() == 0 {
        false
    } else if values.len() == 1 {
        result == values[0]
    } else {
        exists|acc: V|
            folds_to(combine, values.drop_last(), acc) && #[trigger] call_ensures(
                combine,
                (acc, values.last()),
                result,
            )
    }
}

proof fn lemma_pushed_nonempty<V>(entries: Seq<(usize, usize, V)>, n: int, key: (usize, usize))
    requires
        0 <= n <= entries.len(),
        key_pushed(entries, n, key),
    ensures
        pushed_values(entries, n, key).len() > 0,
    decreases n,
{
    if key_of(entries[n - 1]) != key {
        assert(key_pushed(entries, n - 1, key)) by {
            let k = choose|k: int| 0 <= k < n && #[trigger] key_of(entries[k]) == key;
            assert(k < n - 1);
        }
        lemma_pushed_nonempty(entries, n - 1, key);
    }
}

/// Position of a stored coordinate among sorted distinct coordinates.
fn find_key(keys: &Vec<(usize, usize)>, key: (usize, usize)) -> (pos: usize)
    requires
        keys_sorted(keys@),
        keys@.contains(key),
    ensures
        pos < keys@.len(),
        keys@[pos as int] == key,
{
    let (pos, found) = lower_bound(keys, key);
    proof {
        let t = choose|t: int| 0 <= t < keys@.len() && keys@[t] == key;
        assert(!key_lt(keys@[t], key));
        if t < pos {
            assert(key_lt(keys@[t], key));
        }
        if t > pos {
            assert(key_lt(keys@[pos as int], keys@[t]));
        }
    }
    pos
}

/// Triplet builder used only for sparse construction and import.
pub struct SparseCooBuilder<V> {
    rows: usize,
    columns: usize,
    entries: Vec<(usize, usize, V)>,
}

impl<V> SparseCooBuilder<V> {
    #[verifier::type_invariant]
    spec fn in_bounds(&self) -> bool {
        forall|k: int|
            0 <= k < self.entries@.len() ==> (#[trigger] self.entries@[k]).0 < self.rows
                && self.entries@[k].1 < self.columns
    }

    /// Row count of the matrix being assembled.
    pub closed spec fn row_count(&self) -> usize {
        self.rows
    }

    /// Column count of the matrix being assembled.
    pub closed spec fn column_count(&self) -> usize {
        self.columns
    }

    /// The pushed triplets, in push order.
    pub closed spec fn triplets(&self) -> Seq<(usize, usize, V)> {
        self.entries@
    }

}

impl<V: Copy> SparseCooBuilder<V> {
    /// An empty builder for a `rows × columns` matrix.
    pub fn new(rows: usize, columns: usize) -> (r: Self)
        ensures
            r.row_count() == rows,
            r.column_count() == columns,
            r.triplets() == Seq::<(usize, usize, V)>::empty(),
    {
        SparseCooBuilder { rows, columns, entries: Vec::new() }
    }

    /// Append one triplet; a coordinate outside the matrix is refused and
    /// leaves the builder unchanged. Duplicate coordinates are combined by
    /// `build`.
    pub fn push(&mut self, row: usize, column: usize, value: V) -> (r: Result<(), OperatorError>)
        ensures
            final(self).row_count() == old(self).row_count(),
            final(self).column_count() == old(self).column_count(),
            row < old(self).row_count() && column < old(self).column_count() ==> r is Ok
                && final(self).triplets() == old(self).triplets().push((row, column, value)),
            !(row < old(self).row_count() && column < old(self).column_count()) ==> r == Err::<
                (),
                OperatorError,
            >(
                OperatorError::InvalidSparsePattern(
                    PatternError::CoordinateOutOfBounds {
                        row,
                        column,
                        rows: old(self).row_count(),
                        columns: old(self).column_count(),
                    },
                ),
            ) && final(self).triplets() == old(self).triplets(),
    {
        proof {
            use_type_invariant(&*self);
        }
        if row >= self.rows || column >= self.columns {
            return Err(
                OperatorError::InvalidSparsePattern(
                    PatternError::CoordinateOutOfBounds {
                        row,
                        column,
                        rows: self.rows,
                        columns: self.columns,
                    },
                ),
            );
        }
        let mut entries: Vec<(usize, usize, V)> = Vec::new();
        std::mem::swap(&mut entries, &mut self.entries);
        entries.push((row, column, value));
        self.entries = entries;
        Ok(())
    }

    /// Assemble canonical CSR: each distinct pushed coordinate is stored once,
    /// rows in order and columns sorted within a row, and its value is the
    /// left fold with `combine` of the values pushed for it, in push order.
    pub fn build<F: Fn(V, V) -> V>(self, combine: F) -> (r: Result<
        SparseCsrTensor<V>,
        OperatorError,
    >)
        requires
            forall|a: V, b: V| call_requires(combine, (a, b)),
        ensures
            match r {
                Ok(t) => assembled(
                    self.triplets(),
                    self.row_count(),
                    self.column_count(),
                    combine,
                    t.structure(),
                    t.entries(),
                ),
                Err(_) => false,
            },
    {
        proof {
            use_type_invariant(&self);
        }
        let rows = self.rows;
        let columns = self.columns;
        let keys = distinct_sorted_keys(&self.entries);
        let m = keys.len();
        proof {
            assert forall|i: int| 0 <= i < keys@.len() implies (#[trigger] keys@[i]).0 < rows
                && keys@[i].1 < columns by {
                let k = choose|k: int|
                    0 <= k < self.entries@.len() && #[trigger] key_of(self.entries@[k]) == keys@[i];
                assert(self.entries@[k].0 < rows);
            }
        }
        let (row_offsets, column_indices) = csr_from_keys(&keys, rows);
        let shape = [rows, columns];
        proof {
            lemma_keys_canonical(keys@, shape@, row_offsets@, column_indices@);
        }
        let ghost offsets = row_offsets@;
        let ghost indices = column_indices@;
        let pattern = match SparseCsrPattern::new(shape, row_offsets, column_indices) {
            Ok(p) => p,
            Err(e) => return Err(e),
        };
        let mut acc: Vec<Option<V>> = Vec::new();
        let mut i: usize = 0;
        while i < m
            invariant
                i <= m,
                acc@.len() == i,
                forall|t: int| 0 <= t < i ==> #[trigger] acc@[t] is None,
            decreases m - i,
        {
            acc.push(None);
            i += 1;
        }
        let n = self.entries.len();
        let mut k: usize = 0;
        while k < n
            invariant
                n == self.entries@.len(),
                m == keys@.len(),
                keys_sorted(keys@),
                k <= n,
                acc@.len() == m,
                forall|j: int| 0 <= j < n ==> keys@.contains(#[trigger] key_of(self.entries@[j])),
                forall|a: V, b: V| call_requires(combine, (a, b)),
                forall|p: int|
                    0 <= p < m ==> match #[trigger] acc@[p] {
                        None => pushed_values(self.entries@, k as int, keys@[p]).len() == 0,
                        Some(x) => folds_to(
                            combine,
                            pushed_values(self.entries@, k as int, keys@[p]),
                            x,
                        ),
                    },
            decreases n - k,
        {
            let (row, column, value) = self.entries[k];
            assert(key_of(self.entries@[k as int]) == (row, column));
            let pos = find_key(&keys, (row, column));
            let next = match acc[pos] {
                None => value,
                Some(a) => combine(a, value),
            };
            let ghost before = acc@;
            acc.set(pos, Some(next));
            proof {
                assert forall|p: int| 0 <= p < m implies match #[trigger] acc@[p] {
                    None => pushed_values(self.entries@, k + 1, keys@[p]).len() == 0,
                    Some(x) => folds_to(combine, pushed_values(self.entries@, k + 1, keys@[p]), x),
                } by {
                    let prev = pushed_values(self.entries@, k as int, keys@[p]);
                    if p == pos {
                        let now = pushed_values(self.entries@, k + 1, keys@[p]);
                        assert(now == prev.push(value));
                        assert(now.drop_last() =~= prev);
                        match before[p] {
                            None => {
                                assert(now.len() == 1);
                            },
                            Some(a) => {
                                assert(folds_to(combine, now.drop_last(), a));
                                assert(call_ensures(combine, (a, now.last()), next));
                            },
                        }
                    } else {
                        if p < pos {
                            assert(key_lt(keys@[p], keys@[pos as int]));
                        } else {
                            assert(key_lt(keys@[pos as int], keys@[p]));
                        }
                        assert(pushed_values(self.entries@, k + 1, keys@[p]) == prev);
                    }
                }
            }
            k += 1;
        }
        let mut values: Vec<V> = Vec::new();
        let mut p: usize = 0;
        while p < m
            invariant
                n == self.entries@.len(),
                m == keys@.len(),
                acc@.len() == m,
                p <= m,
                values@.len() == p,
                forall|i: int| 0 <= i < m ==> key_pushed(self.entries@, n as int, #[trigger] keys@[i]),
                forall|t: int|
                    0 <= t < m ==> match #[trigger] acc@[t] {
                        None => pushed_values(self.entries@, n as int, keys@[t]).len() == 0,
                        Some(x) => folds_to(combine, pushed_values(self.entries@, n as int, keys@[t]), x),
                    },
                forall|t: int|
                    0 <= t < p ==> folds_to(
                        combine,
                        pushed_values(self.entries@, n as int, keys@[t]),
                        #[trigger] values@[t],
                    ),
            decreases m - p,
        {
            proof {
                lemma_pushed_nonempty(self.entries@, n as int, keys@[p as int]);
            }
            match acc[p] {
                Some(x) => {
                    values.push(x);
                },
                None => {
                    assert(false);
                },
            }
            p += 1;
        }
        let ghost vals = values@;
        let value_shape = [values.len()];
        assert(value_shape@ =~= seq![values@.len() as usize]);
        let tensor = match SparseCsrTensor::new(Arc::new(pattern), value_shape.as_slice(), values) {
            Ok(t) => t,
            Err(e) => return Err(e),
        };
        proof {
            assert forall|r: int, p: int|
                0 <= r < rows && offsets[r] <= p < offsets[r + 1] implies #[trigger] stored_key_valid(
                self.entries@,
                combine,
                offsets,
                indices,
                vals,
                r,
                p,
            ) by {
                assert(splits_at(keys@, r, offsets[r] as int));
                assert(splits_at(keys@, r + 1, offsets[r + 1] as int));
                assert(keys@[p] == (r as usize, indices[p]));
            }
            assert forall|j: int| 0 <= j < n implies #[trigger] key_stored(
                offsets,
                indices,
                rows as int,
                key_of(self.entries@[j]),
            ) by {
                let key = key_of(self.entries@[j]);
                let t = choose|t: int| 0 <= t < keys@.len() && keys@[t] == key;
                let r = key.0 as int;
                assert(splits_at(keys@, r, offsets[r] as int));
                assert(splits_at(keys@, r + 1, offsets[r + 1] as int));
                assert(offsets[r] <= t < offsets[r + 1]);
                assert(indices[t] == key.1);
            }
        }
        Ok(tensor)
    }
}

/// The stored entry at position `p` of row `r` has a pushed coordinate, and
/// its value folds the values pushed for that coordinate.
pub open spec fn stored_key_valid<V, F: Fn(V, V) -> V>(
    entries: Seq<(usize, usize, V)>,
    combine: F,
    offsets: Seq<usize>,
    indices: Seq<usize>,
    values: Seq<V>,
    r: int,
    p: int,
) -> bool {
    &&& key_pushed(entries, entries.len() as int, (r as usize, indices[p]))
    &&& folds_to(combine, pushed_values(entries, entries.len() as int, (r as usize, indices[p])), values[p])
}

/// Some stored entry of the pattern has coordinate `key`.
pub open spec fn key_stored(offsets: Seq<usize>, indices: Seq<usize>, rows: int, key: (usize, usize)) -> bool {
    &&& 0 <= key.0 < rows
    &&& exists|p: int| offsets[key.0 as int] <= p < offsets[key.0 + 1] && #[trigger] indices[p] == key.1
}

/// `pattern` and `values` are what assembling `entries` into a
/// `rows × columns` matrix gives: a canonical pattern storing exactly the
/// pushed coordinates, each value folding its coordinate's pushed values.
pub open spec fn assembled<V, F: Fn(V, V) -> V>(
    entries: Seq<(usize, usize, V)>,
    rows: usize,
    columns: usize,
    combine: F,
    pattern: SparseCsrPattern,
    values: Seq<V>,
) -> bool {
    let offsets = pattern.offsets();
    let indices = pattern.indices();
    &&& pattern.dims() == seq![rows, columns]
    &&& pattern_check(pattern.dims(), offsets, indices) is Ok
    &&& values.len() == indices.len()
    &&& forall|r: int, p: int|
        0 <= r < rows && offsets[r] <= p < offsets[r + 1] ==> #[trigger] stored_key_valid(
            entries,
            combine,
            offsets,
            indices,
            values,
            r,
            p,
        )
    &&& forall|k: int| 0 <= k < entries.len() ==> #[trigger] key_stored(offsets, indices, rows as int, key_of(entries[k]))
}

/// The verdict on COO coordinate pairs `k ..`, checked in order: sign of
/// the row, sign of the column, then bounds.
pub open spec fn coordinates_check(shape: Seq<usize>, coords: Seq<i64>, k: int) -> Result<
    (),
    PatternError,
>
    decreases coords.len() / 2 - k,
{
    if k < 0 || k >= coords.len() / 2 {
        Ok(())
    } else {
        let row = coords[2 * k];
        let column = coords[2 * k + 1];
        if row < 0 || row > usize::MAX {
            Err(PatternError::NegativeRow)
        } else if column < 0 || column > usize::MAX {
            Err(PatternError::NegativeColumn)
        } else if row >= shape[0] || column >= shape[1] {
            Err(PatternError::CooCoordinateOutOfBounds { row: row as usize, column: column as usize })
        } else {
            coordinates_check(shape, coords, k + 1)
        }
    }
}

/// What `SparseCooTensor::from_parts` answers: the first of its checks that
/// fails, in the order it makes them. `coordinates` is `None` when the
/// coordinate tensor does not hold 64-bit signed integers; `values_count`
/// is `None` when the value tensor does not hold 64-bit floats, and otherwise
/// the number of values it holds. The coordinates must hold exactly the
/// `2 × nnz` entries their shape promises, and the values the `nnz` entries
/// theirs promises.
pub open spec fn coo_check(
    shape: Seq<usize>,
    coordinate_shape: Seq<usize>,
    coordinates: Option<Seq<i64>>,
    value_shape: Seq<usize>,
    values_count: Option<int>,
) -> Result<(), PatternError> {
    if shape.len() != 2 {
        Err(PatternError::CooRank { rank: shape.len() as usize })
    } else if coordinates is None {
        Err(PatternError::CooCoordinateType)
    } else if coordinate_shape.len() != 2 || coordinate_shape[0] != 2
        || coordinates.unwrap().len() != 2 * coordinate_shape[1] {
        Err(PatternError::CooCoordinateShape)
    } else if values_count is None || value_shape != seq![coordinate_shape[1]]
        || values_count.unwrap() != coordinate_shape[1] {
        Err(PatternError::CooValues { nnz: coordinate_shape[1] })
    } else {
        coordinates_check(shape, coordinates.unwrap(), 0)
    }
}

/// The documented conditions on COO parts: a rank-two shape; 64-bit integer
/// coordinates of shape `[2, nnz]` holding `2 · nnz` entries, pair `k`
/// being `[row, column]` with `0 <= row < shape[0]` and
/// `0 <= column < shape[1]`; and `nnz` 64-bit float values of shape `[nnz]`.
pub open spec fn coo_parts_valid(
    shape: Seq<usize>,
    coordinate_shape: Seq<usize>,
    coordinates: Option<Seq<i64>>,
    value_shape: Seq<usize>,
    values_count: Option<int>,
) -> bool {
    &&& shape.len() == 2
    &&& coordinate_shape.len() == 2
    &&& coordinate_shape[0] == 2
    &&& value_shape == seq![coordinate_shape[1]]
    &&& coordinates matches Some(c) && c.len() == 2 * coordinate_shape[1] && forall|k: int|
        0 <= k < coordinate_shape[1] ==> 0 <= #[trigger] c[2 * k] < shape[0] && 0 <= c[2 * k + 1]
            < shape[1]
    &&& values_count == Some(coordinate_shape[1] as int)
}

proof fn lemma_coordinates_valid(shape: Seq<usize>, coords: Seq<i64>, k: int)
    requires
        shape.len() == 2,
        0 <= k,
        forall|t: int|
            0 <= t < coords.len() / 2 ==> 0 <= #[trigger] coords[2 * t] < shape[0] && 0 <= coords[2
                * t + 1] < shape[1],
    ensures
        coordinates_check(shape, coords, k) is Ok,
    decreases coords.len() / 2 - k,
{
    if k < coords.len() / 2 {
        assert(0 <= coords[2 * k] < shape[0]);
        lemma_coordinates_valid(shape, coords, k + 1);
    }
}

/// Every COO import meeting the documented conditions is accepted: the
/// checks refuse nothing beyond them, whatever the number of entries.
pub proof fn lemma_coo_accepts_valid_parts(
    shape: Seq<usize>,
    coordinate_shape: Seq<usize>,
    coordinates: Option<Seq<i64>>,
    value_shape: Seq<usize>,
    values_count: Option<int>,
)
    requires
        coo_parts_valid(shape, coordinate_shape, coordinates, value_shape, values_count),
    ensures
        coo_check(shape, coordinate_shape, coordinates, value_shape, values_count) is Ok,
{
    let c = coordinates.unwrap();
    let nnz = coordinate_shape[1] as int;
    assert(c.len() / 2 == nnz);
    lemma_coordinates_valid(shape, c, 0);
}

proof fn lemma_coordinates_ok(shape: Seq<usize>, coords: Seq<i64>, k: int)
    requires
        shape.len() == 2,
        0 <= k,
        coordinates_check(shape, coords, k) is Ok,
    ensures
        forall|t: int|
            k <= t < coords.len() / 2 ==> 0 <= #[trigger] coords[2 * t] < shape[0] && 0 <= coords[2
                * t + 1] < shape[1],
    decreases coords.len() / 2 - k,
{
    if k < coords.len() / 2 {
        lemma_coordinates_ok(shape, coords, k + 1);
    }
}

/// The triplets a COO tensor holds: pair `k` of the coordinates with value
/// `k`, for as many pairs as there are both.
pub open spec fn coo_triplets<V>(coords: Seq<i64>, values: Seq<V>) -> Seq<(usize, usize, V)> {
    let count: nat = if coords.len() / 2 < values.len() {
        coords.len() / 2
    } else {
        values.len()
    };
    Seq::new(count, |k: int| (coords[2 * k] as usize, coords[2 * k + 1] as usize, values[k]))
}

/// The number of values handed to `from_parts`, if they are floats.
pub open spec fn values_count<V>(values: Option<Vec<V>>) -> Option<int> {
    match values {
        Some(v) => Some(v@.len() as int),
        None => None,
    }
}

/// The coordinates handed to `from_parts`, if they are integers.
pub open spec fn coordinates_view(coordinates: Option<Vec<i64>>) -> Option<Seq<i64>> {
    match coordinates {
        Some(c) => Some(c@),
        None => None,
    }
}

/// Validated COO tensor used at the import boundary: a rank-two shape,
/// coordinate pairs `[row, column]` and one value per pair.
pub struct SparseCooTensor<V> {
    shape: Vec<usize>,
    coordinates: Vec<i64>,
    values: Vec<V>,
}

impl<V> SparseCooTensor<V> {
    #[verifier::type_invariant]
    spec fn valid(&self) -> bool {
        &&& self.shape@.len() == 2
        &&& self.coordinates@.len() == 2 * self.values@.len()
        &&& coordinates_check(self.shape@, self.coordinates@, 0) is Ok
    }

    /// Sparse logical shape.
    pub closed spec fn dims(&self) -> Seq<usize> {
        self.shape@
    }

    /// Coordinate pairs, flattened: `[row0, column0, row1, column1, ...]`.
    pub closed spec fn coordinate_pairs(&self) -> Seq<i64> {
        self.coordinates@
    }

    /// Nonzero values.
    pub closed spec fn nonzeros(&self) -> Seq<V> {
        self.values@
    }

    /// Validate fixed COO coordinates and values.
    pub fn from_parts(
        shape: Vec<usize>,
        coordinate_shape: &[usize],
        coordinates: Option<Vec<i64>>,
        value_shape: &[usize],
        values: Option<Vec<V>>,
    ) -> (r: Result<Self, OperatorError>)
        ensures
            ({
                let verdict = coo_check(
                    shape@,
                    coordinate_shape@,
                    coordinates_view(coordinates),
                    value_shape@,
                    values_count(values),
                );
                &&& coo_parts_valid(
                    shape@,
                    coordinate_shape@,
                    coordinates_view(coordinates),
                    value_shape@,
                    values_count(values),
                ) ==> (r is Ok)
                &&& match r {
                    Ok(t) => verdict is Ok && t.dims() == shape@ && t.coordinate_pairs()
                        == coordinates.unwrap()@ && t.nonzeros() == values.unwrap()@,
                    Err(e) => match verdict {
                        Err(reason) => e == OperatorError::InvalidSparsePattern(reason),
                        Ok(_) => false,
                    },
                }
            }),
    {
        let ghost verdict = coo_check(
            shape@,
            coordinate_shape@,
            coordinates_view(coordinates),
            value_shape@,
            values_count(values),
        );
        proof {
            if coo_parts_valid(
                shape@,
                coordinate_shape@,
                coordinates_view(coordinates),
                value_shape@,
                values_count(values),
            ) {
                lemma_coo_accepts_valid_parts(
                    shape@,
                    coordinate_shape@,
                    coordinates_view(coordinates),
                    value_shape@,
                    values_count(values),
                );
            }
        }
        if shape.len() != 2 {
            return Err(OperatorError::InvalidSparsePattern(PatternError::CooRank { rank: shape.len() }));
        }
        let coords = match coordinates {
            Some(c) => c,
            None => return Err(OperatorError::InvalidSparsePattern(PatternError::CooCoordinateType)),
        };
        if coordinate_shape.len() != 2 || coordinate_shape[0] != 2 {
            return Err(OperatorError::InvalidSparsePattern(PatternError::CooCoordinateShape));
        }
        let nnz = coordinate_shape[1];
        if coords.len() % 2 != 0 || coords.len() / 2 != nnz {
            return Err(OperatorError::InvalidSparsePattern(PatternError::CooCoordinateShape));
        }
        let vals = match values {
            Some(v) => v,
            None => return Err(OperatorError::InvalidSparsePattern(PatternError::CooValues { nnz })),
        };
        if value_shape.len() != 1 || value_shape[0] != nnz {
            proof {
                if value_shape@.len() == 1 {
                    assert(value_shape@[0] != seq![nnz][0]);
                }
            }
            return Err(OperatorError::InvalidSparsePattern(PatternError::CooValues { nnz }));
        }
        assert(value_shape@ =~= seq![nnz]);
        if vals.len() != nnz {
            return Err(OperatorError::InvalidSparsePattern(PatternError::CooValues { nnz }));
        }
        assert(verdict == coordinates_check(shape@, coords@, 0));
        let rows = shape[0];
        let columns = shape[1];
        let n = coords.len();
        let pairs = n / 2;
        let mut k: usize = 0;
        while k < pairs
            invariant
                n == coords@.len(),
                verdict == coo_check(
                    shape@,
                    coordinate_shape@,
                    coordinates_view(coordinates),
                    value_shape@,
                    values_count(values),
                ),
                pairs == n / 2,
                verdict == coordinates_check(shape@, coords@, 0),
                coo_parts_valid(
                    shape@,
                    coordinate_shape@,
                    coordinates_view(coordinates),
                    value_shape@,
                    values_count(values),
                ) ==> (verdict is Ok),
                k <= pairs,
                shape@.len() == 2,
                rows == shape@[0],
                columns == shape@[1],
                coordinates_check(shape@, coords@, 0) == coordinates_check(
                    shape@,
                    coords@,
                    k as int,
                ),
            decreases pairs - k,
        {
            let row = coords[2 * k];
            let column = coords[2 * k + 1];
            if row < 0 || row as u64 > usize::MAX as u64 {
                assert(coordinates_check(shape@, coords@, k as int) == Err::<(), PatternError>(
                    PatternError::NegativeRow,
                ));
                return Err(OperatorError::InvalidSparsePattern(PatternError::NegativeRow));
            }
            if column < 0 || column as u64 > usize::MAX as u64 {
                assert(coordinates_check(shape@, coords@, k as int) == Err::<(), PatternError>(
                    PatternError::NegativeColumn,
                ));
                return Err(OperatorError::InvalidSparsePattern(PatternError::NegativeColumn));
            }
            if row as usize >= rows || column as usize >= columns {
                return Err(
                    OperatorError::InvalidSparsePattern(
                        PatternError::CooCoordinateOutOfBounds {
                            row: row as usize,
                            column: column as usize,
                        },
                    ),
                );
            }
            k += 1;
        }
        Ok(SparseCooTensor { shape, coordinates: coords, values: vals })
    }

    /// Sparse logical shape.
    pub fn shape(&self) -> (r: &[usize])
        ensures
            r@ == self.dims(),
            r@.len() == 2,
    {
        proof {
            use_type_invariant(self);
        }
        self.shape.as_slice()
    }

    /// Fixed COO coordinates, as `[row, column]` pairs one after the other,
    /// one pair per value.
    pub fn coordinates(&self) -> (r: &[i64])
        ensures
            r@ == self.coordinate_pairs(),
            r@.len() == 2 * self.nonzeros().len(),
    {
        proof {
            use_type_invariant(self);
        }
        self.coordinates.as_slice()
    }

    /// COO nonzero values, one per coordinate pair.
    pub fn values(&self) -> (r: &[V])
        ensures
            r@ == self.nonzeros(),
            2 * r@.len() == self.coordinate_pairs().len(),
    {
        proof {
            use_type_invariant(self);
        }
        self.values.as_slice()
    }
}

impl<V: Copy> SparseCsrTensor<V> {
    /// Convert a validated COO import tensor into canonical CSR, combining
    /// the values of repeated coordinates with `combine` in import order.
    pub fn from_coo<F: Fn(V, V) -> V>(coo: &SparseCooTensor<V>, combine: F) -> (r: Result<
        Self,
        OperatorError,
    >)
        requires
            forall|a: V, b: V| call_requires(combine, (a, b)),
        ensures
            match r {
                Ok(t) => assembled(
                    coo_triplets(coo.coordinate_pairs(), coo.nonzeros()),
                    coo.dims()[0],
                    coo.dims()[1],
                    combine,
                    t.structure(),
                    t.entries(),
                ),
                Err(_) => false,
            },
    {
        proof {
            use_type_invariant(coo);
            lemma_coordinates_ok(coo.shape@, coo.coordinates@, 0);
        }
        let rows = coo.shape[0];
        let columns = coo.shape[1];
        let mut builder = SparseCooBuilder::new(rows, columns);
        let n = coo.coordinates.len();
        let pairs = n / 2;
        let count = if pairs < coo.values.len() { pairs } else { coo.values.len() };
        let ghost triplets = coo_triplets(coo.coordinates@, coo.values@);
        let mut k: usize = 0;
        while k < count
            invariant
                count == triplets.len(),
                n == coo.coordinates@.len(),
                pairs == n / 2,
                count <= pairs,
                count <= coo.values@.len(),
                k <= count,
                triplets == coo_triplets(coo.coordinates@, coo.values@),
                rows == coo.shape@[0],
                columns == coo.shape@[1],
                coo.shape@.len() == 2,
                forall|t: int|
                    0 <= t < pairs ==> 0 <= #[trigger] coo.coordinates@[2 * t] < rows && 0
                        <= coo.coordinates@[2 * t + 1] < columns,
                builder.row_count() == rows,
                builder.column_count() == columns,
                builder.triplets() == triplets.take(k as int),
            decreases count - k,
        {
            let row = coo.coordinates[2 * k];
            let column = coo.coordinates[2 * k + 1];
            match builder.push(row as usize, column as usize, coo.values[k]) {
                Ok(()) => {},
                Err(e) => return Err(e),
            }
            assert(builder.triplets() =~= triplets.take(k + 1));
            k += 1;
        }
        assert(triplets.take(count as int) =~= triplets);
        builder.build(combine)
    }
}

/// No two triplets share a coordinate.
pub open spec fn keys_distinct<V>(entries: Seq<(usize, usize, V)>) -> bool {
    forall|a: int, b: int|
        0 <= a < b < entries.len() ==> key_of(#[trigger] entries[a]) != key_of(#[trigger] entries[b])
}

proof fn lemma_pushed_absent<V>(entries: Seq<(usize, usize, V)>, n: int, key: (usize, usize))
    requires
        0 <= n <= entries.len(),
        forall|k: int| 0 <= k < n ==> key_of(#[trigger] entries[k]) != key,
    ensures
        pushed_values(entries, n, key) == Seq::<V>::empty(),
    decreases n,
{
    if n > 0 {
        lemma_pushed_absent(entries, n - 1, key);
    }
}

/// When no coordinate is pushed twice, the values pushed for the coordinate
/// of triplet `k` are that triplet's value alone.
pub proof fn lemma_pushed_values_single<V>(entries: Seq<(usize, usize, V)>, n: int, k: int)
    requires
        0 <= k < n <= entries.len(),
        keys_distinct(entries),
    ensures
        pushed_values(entries, n, key_of(entries[k])) == seq![entries[k].2],
    decreases n,
{
    let key = key_of(entries[k]);
    if n - 1 == k {
        assert forall|t: int| 0 <= t < n - 1 implies key_of(#[trigger] entries[t]) != key by {
            assert(key_of(entries[t]) != key_of(entries[k]));
        }
        lemma_pushed_absent(entries, n - 1, key);
        assert(pushed_values(entries, n - 1, key).push(entries[k].2) =~= seq![entries[k].2]);
    } else {
        assert(key_of(entries[k]) != key_of(entries[n - 1]));
        lemma_pushed_values_single(entries, n - 1, k);
    }
}

/// Adjacent strict increase gives strict increase between any two entries.
proof fn lemma_strictly_increasing(s: Seq<usize>, x: int, y: int)
    requires
        forall|p: int| 0 <= p && p + 1 < s.len() ==> #[trigger] s[p] < s[p + 1],
        0 <= x < y < s.len(),
    ensures
        s[x] < s[y],
    decreases y - x,
{
    if x + 1 < y {
        lemma_strictly_increasing(s, x, y - 1);
        assert(s[y - 1] < s[y]);
    }
}

/// Two strictly increasing sequences with the same elements are equal.
proof fn lemma_sorted_unique(a: Seq<usize>, b: Seq<usize>)
    requires
        forall|x: int, y: int| 0 <= x < y < a.len() ==> #[trigger] a[x] < #[trigger] a[y],
        forall|x: int, y: int| 0 <= x < y < b.len() ==> #[trigger] b[x] < #[trigger] b[y],
        forall|c: usize| #![trigger a.contains(c)] #![trigger b.contains(c)] a.contains(c) <==> b.contains(c),
    ensures
        a == b,
    decreases a.len(),
{
    if a.len() == 0 {
        if b.len() > 0 {
            assert(b.contains(b[0]));
        }
        assert(a =~= b);
    } else {
        assert(a.contains(a[0]));
        let k = choose|k: int| 0 <= k < b.len() && b[k] == a[0];
        assert(b.contains(b[0]));
        let k2 = choose|k2: int| 0 <= k2 < a.len() && a[k2] == b[0];
        if k > 0 {
            assert(b[0] < b[k]);
        }
        if k2 > 0 {
            assert(a[0] < a[k2]);
        }
        assert(a[0] == b[0]);
        let a1 = a.drop_first();
        let b1 = b.drop_first();
        assert forall|c: usize| #![trigger a1.contains(c)] #![trigger b1.contains(c)] a1.contains(c) <==> b1.contains(c) by {
            if a1.contains(c) {
                let t = choose|t: int| 0 <= t < a1.len() && a1[t] == c;
                assert(a[t + 1] == c);
                assert(a[0] < a[t + 1]);
                assert(a.contains(c));
                let u = choose|u: int| 0 <= u < b.len() && b[u] == c;
                assert(u != 0);
                assert(b1[u - 1] == c);
            }
            if b1.contains(c) {
                let t = choose|t: int| 0 <= t < b1.len() && b1[t] == c;
                assert(b[t + 1] == c);
                assert(b[0] < b[t + 1]);
                assert(b.contains(c));
                let u = choose|u: int| 0 <= u < a.len() && a[u] == c;
                assert(u != 0);
                assert(a1[u - 1] == c);
            }
        }
        assert forall|x: int, y: int| 0 <= x < y < a1.len() implies #[trigger] a1[x] < #[trigger] a1[y] by {
            assert(a[x + 1] < a[y + 1]);
        }
        assert forall|x: int, y: int| 0 <= x < y < b1.len() implies #[trigger] b1[x] < #[trigger] b1[y] by {
            assert(b[x + 1] < b[y + 1]);
        }
        lemma_sorted_unique(a1, b1);
        assert(a =~= seq![a[0]] + a1);
        assert(b =~= seq![b[0]] + b1);
    }
}

/// Rows `0 .. r` of two canonical patterns with the same stored
/// coordinates have the same offsets and column indices.
proof fn lemma_rows_agree(
    rows: int,
    columns: int,
    o1: Seq<usize>,
    i1: Seq<usize>,
    o2: Seq<usize>,
    i2: Seq<usize>,
    r: int,
)
    requires
        0 <= r <= rows <= usize::MAX,
        o1.len() == rows + 1,
        o2.len() == rows + 1,
        o1[0] == 0,
        o2[0] == 0,
        offsets_nondecreasing(o1),
        offsets_nondecreasing(o2),
        o1[rows] == i1.len(),
        o2[rows] == i2.len(),
        forall|q: int| 0 <= q < rows ==> #[trigger] row_ok(o1, i1, columns, q),
        forall|q: int| 0 <= q < rows ==> #[trigger] row_ok(o2, i2, columns, q),
        forall|key: (usize, usize)|
            #[trigger] key_stored(o1, i1, rows, key) <==> key_stored(o2, i2, rows, key),
    ensures
        o1[r] == o2[r],
        forall|p: int| 0 <= p < o1[r] ==> #[trigger] i1[p] == i2[p],
    decreases r,
{
    if r > 0 {
        let q = r - 1;
        lemma_rows_agree(rows, columns, o1, i1, o2, i2, q);
        crate::sparse::lemma_offsets_monotone(o1, q, r);
        crate::sparse::lemma_offsets_monotone(o1, r, rows);
        crate::sparse::lemma_offsets_monotone(o2, q, r);
        crate::sparse::lemma_offsets_monotone(o2, r, rows);
        let s1 = i1.subrange(o1[q] as int, o1[r] as int);
        let s2 = i2.subrange(o2[q] as int, o2[r] as int);
        assert(row_ok(o1, i1, columns, q));
        assert(row_ok(o2, i2, columns, q));
        assert forall|x: int, y: int| 0 <= x < y < s1.len() implies #[trigger] s1[x] < #[trigger] s1[y] by {
            assert forall|p: int| 0 <= p && p + 1 < s1.len() implies #[trigger] s1[p] < s1[p + 1] by {
                assert(i1[o1[q] + p] < i1[o1[q] + p + 1]);
            }
            lemma_strictly_increasing(s1, x, y);
        }
        assert forall|x: int, y: int| 0 <= x < y < s2.len() implies #[trigger] s2[x] < #[trigger] s2[y] by {
            assert forall|p: int| 0 <= p && p + 1 < s2.len() implies #[trigger] s2[p] < s2[p + 1] by {
                assert(i2[o2[q] + p] < i2[o2[q] + p + 1]);
            }
            lemma_strictly_increasing(s2, x, y);
        }
        assert forall|c: usize| #![trigger s1.contains(c)] #![trigger s2.contains(c)] s1.contains(c) <==> s2.contains(c) by {
            let key = (q as usize, c);
            assert(key.0 as int == q);
            if s1.contains(c) {
                let t = choose|t: int| 0 <= t < s1.len() && s1[t] == c;
                assert(i1[o1[q] + t] == c);
                assert(key_stored(o1, i1, rows, key));
                assert(key_stored(o2, i2, rows, key));
                let p = choose|p: int| o2[q] <= p < o2[q + 1] && #[trigger] i2[p] == c;
                assert(s2[p - o2[q]] == c);
            }
            if s2.contains(c) {
                let t = choose|t: int| 0 <= t < s2.len() && s2[t] == c;
                assert(i2[o2[q] + t] == c);
                assert(key_stored(o2, i2, rows, key));
                assert(key_stored(o1, i1, rows, key));
                let p = choose|p: int| o1[q] <= p < o1[q + 1] && #[trigger] i1[p] == c;
                assert(s1[p - o1[q]] == c);
            }
        }
        lemma_sorted_unique(s1, s2);
        assert(s1.len() == s2.len());
        assert forall|p: int| 0 <= p < o1[r] implies #[trigger] i1[p] == i2[p] by {
            if p >= o1[q] {
                assert(s1[p - o1[q]] == s2[p - o1[q]]);
            }
        }
    }
}

/// Canonical CSR is unique: two canonical patterns of the same shape that
/// store the same coordinates are identical.
pub proof fn lemma_canonical_unique(
    shape: Seq<usize>,
    o1: Seq<usize>,
    i1: Seq<usize>,
    o2: Seq<usize>,
    i2: Seq<usize>,
)
    requires
        shape.len() == 2,
        pattern_check(shape, o1, i1) is Ok,
        pattern_check(shape, o2, i2) is Ok,
        forall|key: (usize, usize)|
            #[trigger] key_stored(o1, i1, shape[0] as int, key) <==> key_stored(o2, i2, shape[0] as int, key),
    ensures
        o1 == o2,
        i1 == i2,
{
    let rows = shape[0] as int;
    let columns = shape[1] as int;
    lemma_rows_check_rows(o1, i1, rows, columns, 0);
    lemma_rows_check_rows(o2, i2, rows, columns, 0);
    lemma_rows_agree(rows, columns, o1, i1, o2, i2, rows);
    assert forall|r: int| 0 <= r <= rows implies o1[r] == o2[r] by {
        lemma_rows_agree(rows, columns, o1, i1, o2, i2, r);
    }
    assert(o1 =~= o2);
    assert(i1 =~= i2);
}

/// Assembly sorts: the stored pattern depends only on which coordinates were
/// pushed, not on the order in which they were pushed nor on how often.
pub proof fn lemma_assembly_order_independent<V, F: Fn(V, V) -> V>(
    e1: Seq<(usize, usize, V)>,
    e2: Seq<(usize, usize, V)>,
    rows: usize,
    columns: usize,
    combine: F,
    p1: SparseCsrPattern,
    v1: Seq<V>,
    p2: SparseCsrPattern,
    v2: Seq<V>,
)
    requires
        assembled(e1, rows, columns, combine, p1, v1),
        assembled(e2, rows, columns, combine, p2, v2),
        forall|key: (usize, usize)|
            #[trigger] key_pushed(e1, e1.len() as int, key) <==> key_pushed(e2, e2.len() as int, key),
    ensures
        p1.offsets() == p2.offsets(),
        p1.indices() == p2.indices(),
{
    let shape = seq![rows, columns];
    assert forall|key: (usize, usize)|
        #[trigger] key_stored(p1.offsets(), p1.indices(), rows as int, key) <==> key_stored(
            p2.offsets(),
            p2.indices(),
            rows as int,
            key,
        ) by {
        lemma_stored_iff_pushed(e1, rows, columns, combine, p1, v1, key);
        lemma_stored_iff_pushed(e2, rows, columns, combine, p2, v2, key);
    }
    lemma_canonical_unique(shape, p1.offsets(), p1.indices(), p2.offsets(), p2.indices());
}

/// In an assembled pattern a coordinate is stored exactly when it was
/// pushed.
pub proof fn lemma_stored_iff_pushed<V, F: Fn(V, V) -> V>(
    entries: Seq<(usize, usize, V)>,
    rows: usize,
    columns: usize,
    combine: F,
    pattern: SparseCsrPattern,
    values: Seq<V>,
    key: (usize, usize),
)
    requires
        assembled(entries, rows, columns, combine, pattern, values),
    ensures
        key_stored(pattern.offsets(), pattern.indices(), rows as int, key) <==> key_pushed(
            entries,
            entries.len() as int,
            key,
        ),
{
    let offsets = pattern.offsets();
    let indices = pattern.indices();
    if key_stored(offsets, indices, rows as int, key) {
        let r = key.0 as int;
        let p = choose|p: int| offsets[r] <= p < offsets[r + 1] && #[trigger] indices[p] == key.1;
        assert(stored_key_valid(entries, combine, offsets, indices, values, r, p));
    }
    if key_pushed(entries, entries.len() as int, key) {
        let k = choose|k: int| 0 <= k < entries.len() && #[trigger] key_of(entries[k]) == key;
        assert(key_stored(offsets, indices, rows as int, key_of(entries[k])));
    }
}

/// `combine` gives one result for each pair of arguments.
pub open spec fn deterministic<V, F: Fn(V, V) -> V>(combine: F) -> bool {
    forall|a: V, b: V, x: V, y: V|
        #[trigger] call_ensures(combine, (a, b), x) && #[trigger] call_ensures(combine, (a, b), y)
            ==> x == y
}

/// With a deterministic `combine`, a sequence folds to one value only.
pub proof fn lemma_fold_unique<V, F: Fn(V, V) -> V>(combine: F, values: Seq<V>, x: V, y: V)
    requires
        deterministic(combine),
        folds_to(combine, values, x),
        folds_to(combine, values, y),
    ensures
        x == y,
    decreases values.len(),
{
    if values.len() > 1 {
        let ax = choose|acc: V|
            folds_to(combine, values.drop_last(), acc) && #[trigger] call_ensures(
                combine,
                (acc, values.last()),
                x,
            );
        let ay = choose|acc: V|
            folds_to(combine, values.drop_last(), acc) && #[trigger] call_ensures(
                combine,
                (acc, values.last()),
                y,
            );
        lemma_fold_unique(combine, values.drop_last(), ax, ay);
        assert(call_ensures(combine, (ax, values.last()), y));
    }
}

/// Every stored position `p` of a pattern lies in some row `r >= k`, given
/// that it lies at or after the start of row `k`.
proof fn lemma_position_row(offsets: Seq<usize>, rows: int, p: int, k: int)
    requires
        offsets.len() == rows + 1,
        offsets_nondecreasing(offsets),
        0 <= k < rows,
        offsets[k] <= p < offsets[rows],
    ensures
        exists|r: int| k <= r < rows && offsets[r] <= p < #[trigger] offsets[r + 1],
    decreases rows - k,
{
    if p < offsets[k + 1] {
        assert(offsets[k] <= p < offsets[k + 1]);
    } else {
        if k + 1 == rows {
            assert(false);
        }
        lemma_position_row(offsets, rows, p, k + 1);
    }
}

/// The row whose stored range holds position `p`.
spec fn row_at(offsets: Seq<usize>, rows: int, p: int) -> int {
    choose|r: int| 0 <= r < rows && offsets[r] <= p < #[trigger] offsets[r + 1]
}

/// A position lies in the stored range of one row only.
proof fn lemma_row_unique(offsets: Seq<usize>, p: int, r1: int, r2: int)
    requires
        offsets_nondecreasing(offsets),
        0 <= r1,
        0 <= r2,
        r1 + 1 < offsets.len(),
        r2 + 1 < offsets.len(),
        offsets[r1] <= p < offsets[r1 + 1],
        offsets[r2] <= p < offsets[r2 + 1],
    ensures
        r1 == r2,
{
    if r1 < r2 {
        crate::sparse::lemma_offsets_monotone(offsets, r1 + 1, r2);
    } else if r2 < r1 {
        crate::sparse::lemma_offsets_monotone(offsets, r2 + 1, r1);
    }
}

/// The coordinates of the stored positions of a pattern, in CSR order.
spec fn stored_keys(offsets: Seq<usize>, indices: Seq<usize>, rows: int) -> Seq<(usize, usize)> {
    Seq::new(indices.len(), |p: int| (row_at(offsets, rows, p) as usize, indices[p]))
}

/// The offsets of a pattern with `rows` rows: `rows + 1` of them,
/// nondecreasing, from 0 to the number of stored entries.
spec fn offsets_frame(offsets: Seq<usize>, indices: Seq<usize>, rows: int) -> bool {
    &&& 0 <= rows <= usize::MAX
    &&& offsets.len() == rows + 1
    &&& offsets_nondecreasing(offsets)
    &&& offsets[0] == 0
    &&& offsets[rows] == indices.len()
}

/// Every stored position lies in the row `row_at` names.
proof fn lemma_row_at(offsets: Seq<usize>, indices: Seq<usize>, rows: int, p: int)
    requires
        offsets_frame(offsets, indices, rows),
        0 <= p < indices.len(),
    ensures
        0 <= row_at(offsets, rows, p) < rows,
        offsets[row_at(offsets, rows, p)] <= p < offsets[row_at(offsets, rows, p) + 1],
{
    if rows == 0 {
        assert(offsets[rows] == 0);
    }
    lemma_position_row(offsets, rows, p, 0);
}

/// Within a sorted row the column indices strictly increase.
proof fn lemma_row_strict(offsets: Seq<usize>, indices: Seq<usize>, r: int, a: int, b: int)
    requires
        row_sorted(offsets, indices, r),
        offsets[r] <= a < b < offsets[r + 1],
    ensures
        indices[a] < indices[b],
    decreases b - a,
{
    if a + 1 < b {
        lemma_row_strict(offsets, indices, r, a, b - 1);
    }
    assert(indices[b - 1] < indices[b]);
}

/// A pattern whose rows are sorted stores each coordinate at most once.
proof fn lemma_stored_keys_distinct(offsets: Seq<usize>, indices: Seq<usize>, rows: int)
    requires
        offsets_frame(offsets, indices, rows),
        forall|r: int| 0 <= r < rows ==> #[trigger] row_sorted(offsets, indices, r),
    ensures
        stored_keys(offsets, indices, rows).no_duplicates(),
{
    let stored = stored_keys(offsets, indices, rows);
    assert forall|a: int, b: int|
        0 <= a < stored.len() && 0 <= b < stored.len() && a != b implies stored[a] != stored[b] by {
        lemma_row_at(offsets, indices, rows, a);
        lemma_row_at(offsets, indices, rows, b);
        let ra = row_at(offsets, rows, a);
        let rb = row_at(offsets, rows, b);
        if stored[a] == stored[b] {
            assert(ra == rb);
            assert(row_sorted(offsets, indices, ra));
            if a < b {
                lemma_row_strict(offsets, indices, ra, a, b);
            } else {
                lemma_row_strict(offsets, indices, ra, b, a);
            }
        }
    }
}

/// The stored coordinates of a pattern are exactly those `key_stored`
/// names.
proof fn lemma_stored_keys_contains(offsets: Seq<usize>, indices: Seq<usize>, rows: int)
    requires
        offsets_frame(offsets, indices, rows),
    ensures
        forall|key: (usize, usize)|
            #[trigger] stored_keys(offsets, indices, rows).contains(key) <==> key_stored(
                offsets,
                indices,
                rows,
                key,
            ),
{
    let stored = stored_keys(offsets, indices, rows);
    assert forall|key: (usize, usize)|
        #[trigger] stored.contains(key) <==> key_stored(offsets, indices, rows, key) by {
        if stored.contains(key) {
            let p = choose|p: int| 0 <= p < stored.len() && stored[p] == key;
            lemma_row_at(offsets, indices, rows, p);
            assert(offsets[key.0 as int] <= p < offsets[key.0 + 1] && indices[p] == key.1);
        }
        if key_stored(offsets, indices, rows, key) {
            let p = choose|p: int|
                offsets[key.0 as int] <= p < offsets[key.0 + 1] && #[trigger] indices[p] == key.1;
            crate::sparse::lemma_offsets_monotone(offsets, 0, key.0 as int);
            crate::sparse::lemma_offsets_monotone(offsets, key.0 + 1, rows);
            lemma_row_at(offsets, indices, rows, p);
            lemma_row_unique(offsets, p, row_at(offsets, rows, p), key.0 as int);
            assert(stored[p] == key);
        }
    }
}

/// When no coordinate is pushed twice, assembly stores one entry per
/// pushed triplet.
pub proof fn lemma_assembled_count<V, F: Fn(V, V) -> V>(
    entries: Seq<(usize, usize, V)>,
    rows: usize,
    columns: usize,
    combine: F,
    pattern: SparseCsrPattern,
    values: Seq<V>,
)
    requires
        assembled(entries, rows, columns, combine, pattern, values),
        keys_distinct(entries),
    ensures
        pattern.indices().len() == entries.len(),
        values.len() == entries.len(),
{
    let offsets = pattern.offsets();
    let indices = pattern.indices();
    let rn = rows as int;
    let pushed = Seq::new(entries.len(), |k: int| key_of(entries[k]));
    let stored = stored_keys(offsets, indices, rn);
    lemma_rows_check_rows(offsets, indices, rn, columns as int, 0);
    assert(offsets_frame(offsets, indices, rn));
    assert forall|r: int| 0 <= r < rn implies #[trigger] row_sorted(offsets, indices, r) by {
        assert(row_ok(offsets, indices, columns as int, r));
    }
    lemma_stored_keys_distinct(offsets, indices, rn);
    lemma_stored_keys_contains(offsets, indices, rn);
    assert(pushed.no_duplicates()) by {
        assert forall|a: int, b: int|
            0 <= a < pushed.len() && 0 <= b < pushed.len() && a != b implies pushed[a]
            != pushed[b] by {
            if a < b {
                assert(key_of(entries[a]) != key_of(entries[b]));
            } else {
                assert(key_of(entries[b]) != key_of(entries[a]));
            }
        }
    }
    assert(stored.to_set() =~= pushed.to_set()) by {
        assert forall|key: (usize, usize)| stored.contains(key) <==> pushed.contains(key) by {
            lemma_stored_iff_pushed(entries, rows, columns, combine, pattern, values, key);
            if pushed.contains(key) {
                let k = choose|k: int| 0 <= k < pushed.len() && pushed[k] == key;
                assert(key_pushed(entries, entries.len() as int, key));
            }
            if key_pushed(entries, entries.len() as int, key) {
                let k = choose|k: int| 0 <= k < entries.len() && #[trigger] key_of(entries[k]) == key;
                assert(pushed[k] == key);
            }
        }
    }
    stored.unique_seq_to_set();
    pushed.unique_seq_to_set();
}

/// Assembly is a function of what was pushed: assembling the same triplets
/// twice gives the same pattern and, when `combine` gives one result for
/// each pair of arguments, the same values.
pub proof fn lemma_assembly_unique<V, F: Fn(V, V) -> V>(
    entries: Seq<(usize, usize, V)>,
    rows: usize,
    columns: usize,
    combine: F,
    p1: SparseCsrPattern,
    v1: Seq<V>,
    p2: SparseCsrPattern,
    v2: Seq<V>,
)
    requires
        assembled(entries, rows, columns, combine, p1, v1),
        assembled(entries, rows, columns, combine, p2, v2),
    ensures
        p1.dims() == p2.dims(),
        p1.offsets() == p2.offsets(),
        p1.indices() == p2.indices(),
        deterministic(combine) ==> v1 == v2,
{
    lemma_assembly_order_independent(entries, entries, rows, columns, combine, p1, v1, p2, v2);
    let offsets = p1.offsets();
    let indices = p1.indices();
    if deterministic(combine) {
        assert forall|p: int| 0 <= p < v1.len() implies v1[p] == v2[p] by {
            let rn = rows as int;
            assert(offsets.len() == rn + 1);
            assert(offsets[0] == 0);
            assert(offsets[rn] == indices.len());
            lemma_position_row(offsets, rn, p, 0);
            let r = choose|r: int| 0 <= r < rn && offsets[r] <= p < #[trigger] offsets[r + 1];
            assert(stored_key_valid(entries, combine, offsets, indices, v1, r, p));
            assert(stored_key_valid(entries, combine, offsets, indices, v2, r, p));
            lemma_fold_unique(
                combine,
                pushed_values(entries, entries.len() as int, (r as usize, indices[p])),
                v1[p],
                v2[p],
            );
        }
        assert(v1 =~= v2);
    }
}

/// Importing a COO tensor gives what pushing its coordinate pairs, with
/// their values, into a builder of the same shape in order and building
/// gives: the same pattern, and, when `combine` gives one result for each
/// pair of arguments, the same values. `imported` and `imported_values` are
/// what `SparseCsrTensor::from_coo` returns; `built` and `built_values` what
/// `build` returns on a builder whose triplets are those pairs in order,
/// `coo_triplets(coordinates, values)`.
pub proof fn lemma_import_matches_builder<V, F: Fn(V, V) -> V>(
    coordinates: Seq<i64>,
    values: Seq<V>,
    rows: usize,
    columns: usize,
    combine: F,
    imported: SparseCsrPattern,
    imported_values: Seq<V>,
    built: SparseCsrPattern,
    built_values: Seq<V>,
)
    requires
        assembled(coo_triplets(coordinates, values), rows, columns, combine, imported, imported_values),
        assembled(coo_triplets(coordinates, values), rows, columns, combine, built, built_values),
    ensures
        imported.dims() == built.dims(),
        imported.offsets() == built.offsets(),
        imported.indices() == built.indices(),
        deterministic(combine) ==> imported_values == built_values,
{
    lemma_assembly_unique(
        coo_triplets(coordinates, values),
        rows,
        columns,
        combine,
        imported,
        imported_values,
        built,
        built_values,
    );
}

} // verus!
