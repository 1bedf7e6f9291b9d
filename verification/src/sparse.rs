//! Canonical CSR sparsity patterns and the COO triplet builder that
//! assembles them.
//!
//! COO is used only for assembly and import; CSR is the execution
//! representation. A canonical CSR pattern has `rows + 1` nondecreasing row
//! offsets starting at zero and ending at the number of stored entries, and
//! in every row the column indices are in bounds, sorted and unique.

use std::sync::Arc;
use vstd::prelude::*;

verus! {

broadcast use vstd::slice::group_slice_axioms;

/// Why sparse structural metadata was refused.
#[derive(Debug, Clone, Copy, PartialEq, Eq)]
pub enum PatternError {
    /// `row_offsets` does not have `rows + 1` entries.
    RowOffsetsLength { rows: usize, actual: usize },
    /// `row_offsets` does not start at zero.
    RowOffsetsStart,
    /// `row_offsets` decreases somewhere.
    RowOffsetsDecrease,
    /// The last row offset differs from the number of column indices.
    LastOffsetNotNnz,
    /// A column index is not below the column count.
    ColumnOutOfBounds,
    /// The column indices of a row are not strictly increasing.
    ColumnsNotSorted,
    /// A pushed triplet's coordinate lies outside the matrix.
    CoordinateOutOfBounds { row: usize, column: usize, rows: usize, columns: usize },
    /// A COO shape does not have rank 2.
    CooRank { rank: usize },
    /// COO coordinates are not 64-bit signed integers.
    CooCoordinateType,
    /// COO coordinates do not have shape `[2, nnz]`.
    CooCoordinateShape,
    /// COO values are not a vector of `nnz` 64-bit floats.
    CooValues { nnz: usize },
    /// A COO row coordinate is negative or does not fit in `usize`.
    NegativeRow,
    /// A COO column coordinate is negative or does not fit in `usize`.
    NegativeColumn,
    /// A COO coordinate lies outside the COO shape.
    CooCoordinateOutOfBounds { row: usize, column: usize },
}

/// Failure while constructing or applying a linear operator.
#[derive(Debug, Clone, Copy, PartialEq, Eq)]
pub enum OperatorError {
    /// Sparse structural metadata is invalid.
    InvalidSparsePattern(PatternError),
    /// A vector has the wrong length for the operator.
    DimensionMismatch { name: &'static str, expected: usize, actual: usize },
}

/// Every column index stored for `row` is below `columns`.
pub open spec fn row_in_bounds(
    offsets: Seq<usize>,
    indices: Seq<usize>,
    columns: int,
    row: int,
) -> bool {
    forall|p: int| offsets[row] <= p < offsets[row + 1] ==> #[trigger] indices[p] < columns
}

/// The column indices stored for `row` strictly increase.
pub open spec fn row_sorted(offsets: Seq<usize>, indices: Seq<usize>, row: int) -> bool {
    forall|p: int| offsets[row] <= p && p + 1 < offsets[row + 1] ==> #[trigger] indices[p] < indices[p + 1]
}

/// The verdict on rows `row ..`, checked in order; each row is checked for
/// bounds before it is checked for order.
pub open spec fn rows_check(
    offsets: Seq<usize>,
    indices: Seq<usize>,
    rows: int,
    columns: int,
    row: int,
) -> Result<(), PatternError>
    decreases rows - row,
{
    if row >= rows {
        Ok(())
    } else if !row_in_bounds(offsets, indices, columns, row) {
        Err(PatternError::ColumnOutOfBounds)
    } else if !row_sorted(offsets, indices, row) {
        Err(PatternError::ColumnsNotSorted)
    } else {
        rows_check(offsets, indices, rows, columns, row + 1)
    }
}

/// Row `row` is in bounds and sorted.
pub open spec fn row_ok(offsets: Seq<usize>, indices: Seq<usize>, columns: int, row: int) -> bool {
    row_in_bounds(offsets, indices, columns, row) && row_sorted(offsets, indices, row)
}

/// Every row passes its checks when the row checks from `row` on pass.
pub proof fn lemma_rows_check_rows(
    offsets: Seq<usize>,
    indices: Seq<usize>,
    rows: int,
    columns: int,
    row: int,
)
    requires
        0 <= row <= rows,
        rows_check(offsets, indices, rows, columns, row) is Ok,
    ensures
        forall|q: int| row <= q < rows ==> #[trigger] row_ok(offsets, indices, columns, q),
    decreases rows - row,
{
    if row < rows {
        lemma_rows_check_rows(offsets, indices, rows, columns, row + 1);
    }
}

/// The row offsets never decrease.
pub open spec fn offsets_nondecreasing(offsets: Seq<usize>) -> bool {
    forall|i: int| 0 <= i && i + 1 < offsets.len() ==> #[trigger] offsets[i] <= offsets[i + 1]
}

/// The verdict of `SparseCsrPattern::new` on the given parts: the first of
/// its checks that fails, in the order it makes them.
pub open spec fn pattern_check(
    shape: Seq<usize>,
    offsets: Seq<usize>,
    indices: Seq<usize>,
) -> Result<(), PatternError> {
    let rows = shape[0] as int;
    let columns = shape[1] as int;
    if offsets.len() != rows + 1 {
        Err(PatternError::RowOffsetsLength { rows: rows as usize, actual: offsets.len() as usize })
    } else if offsets[0] != 0 {
        Err(PatternError::RowOffsetsStart)
    } else if !offsets_nondecreasing(offsets) {
        Err(PatternError::RowOffsetsDecrease)
    } else if offsets[rows] != indices.len() {
        Err(PatternError::LastOffsetNotNnz)
    } else {
        rows_check(offsets, indices, rows, columns, 0)
    }
}

/// Adjacent order of the offsets gives order between any two of them.
pub proof fn lemma_offsets_monotone(offsets: Seq<usize>, i: int, j: int)
    requires
        offsets_nondecreasing(offsets),
        0 <= i <= j < offsets.len(),
    ensures
        offsets[i] <= offsets[j],
    decreases j - i,
{
    if i < j {
        lemma_offsets_monotone(offsets, i, j - 1);
        assert(offsets[j - 1] <= offsets[j]);
    }
}

/// The verdict on one row: bounds first, then order.
fn check_row(offsets: &Vec<usize>, indices: &Vec<usize>, columns: usize, row: usize) -> (r: Result<
    (),
    PatternError,
>)
    requires
        row + 1 < offsets@.len(),
        offsets@[row as int] <= offsets@[row + 1] <= indices@.len(),
    ensures
        r == (if !row_in_bounds(offsets@, indices@, columns as int, row as int) {
            Err(PatternError::ColumnOutOfBounds)
        } else if !row_sorted(offsets@, indices@, row as int) {
            Err(PatternError::ColumnsNotSorted)
        } else {
            Ok(())
        }),
{
    let n = offsets.len();
    let start = offsets[row];
    let end = offsets[row + 1];
    let mut p = start;
    while p < end
        invariant
            start <= p <= end <= indices@.len(),
            start == offsets@[row as int],
            end == offsets@[row + 1],
            forall|q: int| start <= q < p ==> #[trigger] indices@[q] < columns,
        decreases end - p,
    {
        if indices[p] >= columns {
            assert(!row_in_bounds(offsets@, indices@, columns as int, row as int)) by {
                assert(offsets@[row as int] <= p < offsets@[row + 1]);
                assert(indices@[p as int] >= columns);
            }
            return Err(PatternError::ColumnOutOfBounds);
        }
        p += 1;
    }
    if start < end {
        let mut p = start + 1;
        while p < end
            invariant
                start < p <= end <= indices@.len(),
                start == offsets@[row as int],
                end == offsets@[row + 1],
                row_in_bounds(offsets@, indices@, columns as int, row as int),
                forall|q: int| start <= q && q + 1 < p ==> #[trigger] indices@[q] < indices@[q + 1],
            decreases end - p,
        {
            if indices[p - 1] >= indices[p] {
                assert(!row_sorted(offsets@, indices@, row as int)) by {
                    let q = p - 1;
                    assert(offsets@[row as int] <= q && q + 1 < offsets@[row + 1]);
                    assert(indices@[q] >= indices@[q + 1]);
                }
                return Err(PatternError::ColumnsNotSorted);
            }
            p += 1;
        }
    }
    Ok(())
}

/// Immutable canonical CSR structure, independent of the stored values.
#[derive(Debug)]
pub struct SparseCsrPattern {
    shape: [usize; 2],
    row_offsets: Vec<usize>,
    column_indices: Vec<usize>,
}

impl SparseCsrPattern {
    #[verifier::type_invariant]
    spec fn canonical(&self) -> bool {
        pattern_check(self.shape@, self.row_offsets@, self.column_indices@) is Ok
    }

    /// Matrix shape `[rows, columns]`.
    pub closed spec fn dims(&self) -> Seq<usize> {
        self.shape@
    }

    /// CSR row offsets.
    pub closed spec fn offsets(&self) -> Seq<usize> {
        self.row_offsets@
    }

    /// CSR column indices.
    pub closed spec fn indices(&self) -> Seq<usize> {
        self.column_indices@
    }

    /// Validate and construct a canonical CSR pattern.
    pub fn new(shape: [usize; 2], row_offsets: Vec<usize>, column_indices: Vec<usize>) -> (r: Result<
        Self,
        OperatorError,
    >)
        ensures
            match r {
                Ok(p) => pattern_check(shape@, row_offsets@, column_indices@) is Ok && p.dims()
                    == shape@ && p.offsets() == row_offsets@ && p.indices() == column_indices@,
                Err(e) => match pattern_check(shape@, row_offsets@, column_indices@) {
                    Err(reason) => e == OperatorError::InvalidSparsePattern(reason),
                    Ok(_) => false,
                },
            },
    {
        let rows = shape[0];
        let columns = shape[1];
        let len = row_offsets.len();
        if len == 0 || len - 1 != rows {
            return Err(
                OperatorError::InvalidSparsePattern(
                    PatternError::RowOffsetsLength { rows, actual: len },
                ),
            );
        }
        if row_offsets[0] != 0 {
            return Err(OperatorError::InvalidSparsePattern(PatternError::RowOffsetsStart));
        }
        let mut i: usize = 0;
        while i + 1 < len
            invariant
                len == row_offsets@.len(),
                len >= 1,
                len == rows + 1,
                rows == shape@[0],
                row_offsets@[0] == 0,
                i + 1 <= len,
                forall|k: int| 0 <= k < i ==> #[trigger] row_offsets@[k] <= row_offsets@[k + 1],
            decreases len - i,
        {
            if row_offsets[i] > row_offsets[i + 1] {
                assert(!offsets_nondecreasing(row_offsets@)) by {
                    assert(row_offsets@[i as int] > row_offsets@[i + 1]);
                }
                return Err(OperatorError::InvalidSparsePattern(PatternError::RowOffsetsDecrease));
            }
            i += 1;
        }
        let nnz = column_indices.len();
        if row_offsets[rows] != nnz {
            return Err(OperatorError::InvalidSparsePattern(PatternError::LastOffsetNotNnz));
        }
        let mut row: usize = 0;
        while row < rows
            invariant
                len == row_offsets@.len(),
                len == rows + 1,
                nnz == column_indices@.len(),
                row <= rows,
                rows == shape@[0],
                columns == shape@[1],
                row_offsets@[0] == 0,
                offsets_nondecreasing(row_offsets@),
                row_offsets@[rows as int] == nnz,
                rows_check(row_offsets@, column_indices@, rows as int, columns as int, 0)
                    == rows_check(
                    row_offsets@,
                    column_indices@,
                    rows as int,
                    columns as int,
                    row as int,
                ),
            decreases rows - row,
        {
            proof {
                lemma_offsets_monotone(row_offsets@, row as int, row + 1);
                lemma_offsets_monotone(row_offsets@, row + 1, rows as int);
            }
            match check_row(&row_offsets, &column_indices, columns, row) {
                Ok(()) => {},
                Err(reason) => {
                    return Err(OperatorError::InvalidSparsePattern(reason));
                },
            }
            row += 1;
        }
        Ok(SparseCsrPattern { shape, row_offsets, column_indices })
    }

    /// Matrix shape `[rows, columns]`.
    pub fn shape(&self) -> (r: [usize; 2])
        ensures
            r@ == self.dims(),
            pattern_check(self.dims(), self.offsets(), self.indices()) is Ok,
    {
        proof {
            use_type_invariant(self);
        }
        self.shape
    }

    /// Number of structurally stored entries.
    pub fn nnz(&self) -> (r: usize)
        ensures
            r == self.indices().len(),
    {
        self.column_indices.len()
    }

    /// CSR row offsets.
    pub fn row_offsets(&self) -> (r: &[usize])
        ensures
            r@ == self.offsets(),
    {
        self.row_offsets.as_slice()
    }

    /// CSR column indices.
    pub fn column_indices(&self) -> (r: &[usize])
        ensures
            r@ == self.indices(),
    {
        self.column_indices.as_slice()
    }
}

impl Clone for SparseCsrPattern {
    /// An identical copy of the pattern.
    fn clone(&self) -> (r: Self)
        ensures
            r.dims() == self.dims(),
            r.offsets() == self.offsets(),
            r.indices() == self.indices(),
    {
        proof {
            use_type_invariant(self);
        }
        let row_offsets = self.row_offsets.clone();
        let column_indices = self.column_indices.clone();
        proof {
            assert(row_offsets@ =~= self.row_offsets@);
            assert(column_indices@ =~= self.column_indices@);
        }
        SparseCsrPattern { shape: self.shape, row_offsets, column_indices }
    }
}

/// What `require_vector` answers for a tensor of shape `shape` holding
/// `actual` elements, when a vector of `expected` entries is needed.
pub open spec fn vector_check(
    name: &'static str,
    shape: Seq<usize>,
    actual: usize,
    expected: usize,
) -> Result<(), OperatorError> {
    if shape == seq![expected] {
        Ok(())
    } else {
        Err(OperatorError::DimensionMismatch { name, expected, actual })
    }
}

/// Check that a tensor of shape `shape` holding `actual` elements is a
/// vector of `expected` entries.
pub fn require_vector(name: &'static str, shape: &[usize], actual: usize, expected: usize) -> (r:
    Result<(), OperatorError>)
    ensures
        r == vector_check(name, shape@, actual, expected),
        shape@.len() == 1 && shape@[0] == expected ==> (r is Ok),
        (r is Ok) ==> shape@.len() == 1 && shape@[0] == expected,
        r is Err ==> r == Err::<(), OperatorError>(
            OperatorError::DimensionMismatch { name, expected, actual },
        ),
{
    if shape.len() != 1 || shape[0] != expected {
        proof {
            if shape@.len() == 1 {
                assert(shape@[0] != expected);
                assert(shape@ != seq![expected]);
            } else {
                assert(shape@.len() != seq![expected].len());
            }
        }
        return Err(OperatorError::DimensionMismatch { name, expected, actual });
    }
    assert(shape@ =~= seq![expected]);
    Ok(())
}

/// Fixed CSR structure plus one value per stored entry.
#[derive(Debug)]
pub struct SparseCsrTensor<V> {
    pattern: Arc<SparseCsrPattern>,
    values: Vec<V>,
}

impl<V> SparseCsrTensor<V> {
    #[verifier::type_invariant]
    spec fn one_value_per_entry(&self) -> bool {
        self.values@.len() == self.pattern.indices().len()
    }

    /// The sparsity pattern.
    pub closed spec fn structure(&self) -> SparseCsrPattern {
        *self.pattern
    }

    /// The stored values, one per stored entry, in CSR order.
    pub closed spec fn entries(&self) -> Seq<V> {
        self.values@
    }

    /// Combine a validated pattern with a rank-one value tensor of shape
    /// `value_shape` holding `values`: the shape must be `[nnz]` and hold
    /// one value per stored entry.
    pub fn new(pattern: Arc<SparseCsrPattern>, value_shape: &[usize], values: Vec<V>) -> (r: Result<
        Self,
        OperatorError,
    >)
        ensures
            ({
                let nnz = pattern.indices().len() as usize;
                let accepted = vector_check("values", value_shape@, values@.len() as usize, nnz) is Ok
                    && values@.len() == nnz;
                match r {
                    Ok(t) => accepted && t.structure() == *pattern && t.entries() == values@,
                    Err(e) => !accepted && e == OperatorError::DimensionMismatch {
                        name: "values",
                        expected: nnz,
                        actual: values@.len() as usize,
                    },
                }
            }),
    {
        let nnz = pattern.nnz();
        let len = values.len();
        match require_vector("values", value_shape, len, nnz) {
            Ok(()) => {},
            Err(e) => return Err(e),
        }
        if len != nnz {
            return Err(OperatorError::DimensionMismatch { name: "values", expected: nnz, actual: len });
        }
        Ok(SparseCsrTensor { pattern, values })
    }

    /// Fixed CSR structure.
    pub fn pattern(&self) -> (r: &Arc<SparseCsrPattern>)
        ensures
            **r == self.structure(),
    {
        &self.pattern
    }

    /// Numeric values of the stored entries, in CSR order.
    pub fn values(&self) -> (r: &[V])
        ensures
            r@ == self.entries(),
            r@.len() == self.structure().indices().len(),
    {
        proof {
            use_type_invariant(self);
        }
        self.values.as_slice()
    }

    /// Matrix shape `[rows, columns]`.
    pub fn shape(&self) -> (r: [usize; 2])
        ensures
            r@ == self.structure().dims(),
    {
        self.pattern.shape()
    }
}

/// `result` is a value that folding `terms` from the left, starting at
/// `zero`, with `mul_add(acc, value, x)` can produce.
pub open spec fn accumulates_to<V, X, Y, F: Fn(Y, V, X) -> Y>(
    mul_add: F,
    zero: Y,
    terms: Seq<(V, X)>,
    result: Y,
) -> bool
    decreases terms.len(),
{
    if terms.len() == 0 {
        result == zero
    } else {
        exists|acc: Y|
            accumulates_to(mul_add, zero, terms.drop_last(), acc) && #[trigger] call_ensures(
                mul_add,
                (acc, terms.last().0, terms.last().1),
                result,
            )
    }
}

/// The terms of row `row` of a product with `input`: each stored value of
/// the row, in order, with the input entry of its column.
pub open spec fn row_terms<V, X>(
    offsets: Seq<usize>,
    indices: Seq<usize>,
    values: Seq<V>,
    input: Seq<X>,
    row: int,
) -> Seq<(V, X)> {
    Seq::new(
        (offsets[row + 1] - offsets[row]) as nat,
        |k: int| (values[offsets[row] + k], input[indices[offsets[row] + k] as int]),
    )
}

impl<V: Copy> SparseCsrTensor<V> {
    /// The matrix-vector product with `input`: entry `row` of the result
    /// folds `mul_add(acc, value, x)` from `zero` over the stored entries of
    /// the row, in order, with `x` the input entry of the entry's column.
    /// An input whose length differs from the column count is refused.
    pub fn apply_with<X: Copy, Y: Copy, F: Fn(Y, V, X) -> Y>(
        &self,
        input: &[X],
        zero: Y,
        mul_add: F,
    ) -> (r: Result<Vec<Y>, OperatorError>)
        requires
            forall|acc: Y, v: V, x: X| call_requires(mul_add, (acc, v, x)),
        ensures
            ({
                let rows = self.structure().dims()[0] as int;
                let columns = self.structure().dims()[1];
                match r {
                    Ok(out) => input@.len() == columns && out@.len() == rows && forall|row: int|
                        0 <= row < rows ==> accumulates_to(
                            mul_add,
                            zero,
                            row_terms(
                                self.structure().offsets(),
                                self.structure().indices(),
                                self.entries(),
                                input@,
                                row,
                            ),
                            #[trigger] out@[row],
                        ),
                    Err(e) => input@.len() != columns && e == OperatorError::DimensionMismatch {
                        name: "input",
                        expected: columns,
                        actual: input@.len() as usize,
                    },
                }
            }),
    {
        proof {
            use_type_invariant(self);
        }
        let shape = self.pattern.shape();
        let rows = shape[0];
        let columns = shape[1];
        let len = input.len();
        if len != columns {
            return Err(OperatorError::DimensionMismatch { name: "input", expected: columns, actual: len });
        }
        let offsets = self.pattern.row_offsets();
        let indices = self.pattern.column_indices();
        let values = self.values.as_slice();
        let ghost o = offsets@;
        let ghost ix = indices@;
        let ghost vs = values@;
        proof {
            lemma_rows_check_rows(o, ix, rows as int, columns as int, 0);
        }
        let mut out: Vec<Y> = Vec::new();
        let mut row: usize = 0;
        while row < rows
            invariant
                o == self.structure().offsets(),
                ix == self.structure().indices(),
                vs == self.entries(),
                offsets@ == o,
                indices@ == ix,
                values@ == vs,
                vs.len() == ix.len(),
                pattern_check(shape@, o, ix) is Ok,
                rows == shape@[0],
                columns == shape@[1],
                len == input@.len(),
                len == columns,
                forall|q: int| 0 <= q < rows ==> #[trigger] row_ok(o, ix, columns as int, q),
                forall|acc: Y, v: V, x: X| call_requires(mul_add, (acc, v, x)),
                row <= rows,
                out@.len() == row,
                forall|q: int|
                    0 <= q < row ==> accumulates_to(
                        mul_add,
                        zero,
                        row_terms(o, ix, vs, input@, q),
                        #[trigger] out@[q],
                    ),
            decreases rows - row,
        {
            proof {
                lemma_offsets_monotone(o, row as int, row + 1);
                lemma_offsets_monotone(o, row + 1, rows as int);
                assert(row_ok(o, ix, columns as int, row as int));
            }
            let start = offsets[row];
            let end = offsets[row + 1];
            let ghost terms = row_terms(o, ix, vs, input@, row as int);
            let mut acc = zero;
            let mut p = start;
            while p < end
                invariant
                    start <= p <= end <= vs.len(),
                    vs.len() == ix.len(),
                    start == o[row as int],
                    end == o[row + 1],
                    offsets@ == o,
                    indices@ == ix,
                    values@ == vs,
                    len == input@.len(),
                    row_in_bounds(o, ix, len as int, row as int),
                    terms == row_terms(o, ix, vs, input@, row as int),
                    forall|acc: Y, v: V, x: X| call_requires(mul_add, (acc, v, x)),
                    accumulates_to(mul_add, zero, terms.take(p - start), acc),
                decreases end - p,
            {
                assert(ix[p as int] < len);
                let next = mul_add(acc, values[p], input[indices[p]]);
                proof {
                    let k = p - start;
                    assert(terms.take(k + 1).drop_last() =~= terms.take(k));
                    assert(terms.take(k + 1).last() == terms[k]);
                    assert(call_ensures(mul_add, (acc, terms.take(k + 1).last().0, terms.take(k + 1).last().1), next));
                }
                acc = next;
                p += 1;
            }
            proof {
                assert(terms.take(end - start) =~= terms);
            }
            out.push(acc);
            row += 1;
        }
        Ok(out)
    }
}

} // verus!
