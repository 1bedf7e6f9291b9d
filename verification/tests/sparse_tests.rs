use poisson::coo::{SparseCooBuilder, SparseCooTensor};
use poisson::sparse::{require_vector, OperatorError, PatternError, SparseCsrPattern, SparseCsrTensor};
use std::sync::Arc;

#[test]
fn coo_builder_sorts_and_combines_duplicates() -> Result<(), OperatorError> {
    let mut builder = SparseCooBuilder::new(2, 2);
    builder.push(1, 1, 4.0)?;
    builder.push(0, 0, 1.0)?;
    builder.push(0, 0, 2.0)?;
    let matrix = builder.build(|a: f64, b: f64| a + b)?;
    assert_eq!(matrix.pattern().row_offsets(), &[0, 1, 2]);
    assert_eq!(matrix.pattern().column_indices(), &[0, 1]);
    assert_eq!(matrix.values(), &[3.0, 4.0]);
    Ok(())
}

#[test]
fn imports_coo_tensor() -> Result<(), OperatorError> {
    let coo = SparseCooTensor::from_parts(
        vec![2, 2],
        &[2, 2],
        Some(vec![0_i64, 0, 1, 1]),
        &[2],
        Some(vec![2.0_f64, 4.0]),
    )?;
    let matrix = SparseCsrTensor::from_coo(&coo, |a: f64, b: f64| a + b)?;
    assert_eq!(matrix.pattern().row_offsets(), &[0, 1, 2]);
    assert_eq!(matrix.pattern().column_indices(), &[0, 1]);
    assert_eq!(matrix.values(), &[2.0, 4.0]);
    Ok(())
}

#[test]
fn builder_combines_in_push_order() -> Result<(), OperatorError> {
    let mut builder = SparseCooBuilder::new(3, 4);
    builder.push(2, 3, 1)?;
    builder.push(0, 2, 10)?;
    builder.push(2, 0, 5)?;
    builder.push(0, 2, 20)?;
    builder.push(0, 1, 7)?;
    builder.push(0, 2, 30)?;
    // Record the fold order: acc * 100 + next.
    let matrix = builder.build(|a: i64, b: i64| a * 100 + b)?;
    assert_eq!(matrix.pattern().row_offsets(), &[0, 2, 2, 4]);
    assert_eq!(matrix.pattern().column_indices(), &[1, 2, 0, 3]);
    assert_eq!(matrix.values(), &[7, 102030, 5, 1]);
    assert_eq!(matrix.shape(), [3, 4]);
    assert_eq!(matrix.pattern().nnz(), 4);
    Ok(())
}

#[test]
fn builder_refuses_out_of_bounds_coordinate() {
    let mut builder = SparseCooBuilder::new(2, 3);
    assert_eq!(
        builder.push(2, 0, 1.0),
        Err(OperatorError::InvalidSparsePattern(PatternError::CoordinateOutOfBounds {
            row: 2,
            column: 0,
            rows: 2,
            columns: 3
        }))
    );
    assert_eq!(
        builder.push(0, 3, 1.0),
        Err(OperatorError::InvalidSparsePattern(PatternError::CoordinateOutOfBounds {
            row: 0,
            column: 3,
            rows: 2,
            columns: 3
        }))
    );
    let matrix = builder.build(|a: f64, b: f64| a + b).unwrap();
    assert_eq!(matrix.pattern().row_offsets(), &[0, 0, 0]);
    assert_eq!(matrix.pattern().nnz(), 0);
}

#[test]
fn empty_builder_gives_empty_rows() {
    let builder: SparseCooBuilder<f64> = SparseCooBuilder::new(0, 5);
    let matrix = builder.build(|a, b| a + b).unwrap();
    assert_eq!(matrix.pattern().row_offsets(), &[0]);
    assert_eq!(matrix.shape(), [0, 5]);
}

#[test]
fn pattern_accepts_canonical_csr() {
    let pattern = SparseCsrPattern::new([2, 3], vec![0, 2, 3], vec![0, 2, 1]).unwrap();
    assert_eq!(pattern.shape(), [2, 3]);
    assert_eq!(pattern.nnz(), 3);
    assert_eq!(pattern.row_offsets(), &[0, 2, 3]);
    assert_eq!(pattern.column_indices(), &[0, 2, 1]);
    let copy = pattern.clone();
    assert_eq!(copy.column_indices(), &[0, 2, 1]);
}

fn pattern_error(shape: [usize; 2], offsets: Vec<usize>, indices: Vec<usize>) -> PatternError {
    match SparseCsrPattern::new(shape, offsets, indices) {
        Err(OperatorError::InvalidSparsePattern(reason)) => reason,
        other => panic!("expected a pattern error, got {:?}", other.map(|p| p.nnz())),
    }
}

#[test]
fn pattern_refusals_in_check_order() {
    assert_eq!(
        pattern_error([2, 2], vec![0, 1], vec![0]),
        PatternError::RowOffsetsLength { rows: 2, actual: 2 }
    );
    assert_eq!(
        pattern_error([0, 2], vec![], vec![]),
        PatternError::RowOffsetsLength { rows: 0, actual: 0 }
    );
    assert_eq!(pattern_error([1, 2], vec![1, 1], vec![0]), PatternError::RowOffsetsStart);
    assert_eq!(pattern_error([2, 2], vec![0, 2, 1], vec![0]), PatternError::RowOffsetsDecrease);
    assert_eq!(pattern_error([1, 2], vec![0, 2], vec![0]), PatternError::LastOffsetNotNnz);
    assert_eq!(pattern_error([1, 2], vec![0, 1], vec![2]), PatternError::ColumnOutOfBounds);
    assert_eq!(pattern_error([1, 3], vec![0, 2], vec![1, 1]), PatternError::ColumnsNotSorted);
    assert_eq!(pattern_error([1, 3], vec![0, 2], vec![2, 1]), PatternError::ColumnsNotSorted);
    // Row 0 is unsorted and row 1 out of bounds: the first bad row decides.
    assert_eq!(
        pattern_error([2, 3], vec![0, 2, 3], vec![2, 1, 7]),
        PatternError::ColumnsNotSorted
    );
    // Within a row the bounds are checked before the order.
    assert_eq!(pattern_error([1, 3], vec![0, 2], vec![2, 5]), PatternError::ColumnOutOfBounds);
}

#[test]
fn csr_tensor_needs_one_value_per_entry() {
    let pattern = Arc::new(SparseCsrPattern::new([1, 2], vec![0, 2], vec![0, 1]).unwrap());
    match SparseCsrTensor::new(pattern.clone(), &[1], vec![1.0]) {
        Err(e) => assert_eq!(
            e,
            OperatorError::DimensionMismatch { name: "values", expected: 2, actual: 1 }
        ),
        Ok(_) => panic!("a short value vector was accepted"),
    }
    // Two values are not enough when the value tensor is not a vector of two.
    match SparseCsrTensor::new(pattern.clone(), &[1, 2], vec![1.0, 2.0]) {
        Err(e) => assert_eq!(
            e,
            OperatorError::DimensionMismatch { name: "values", expected: 2, actual: 2 }
        ),
        Ok(_) => panic!("a rank-two value tensor was accepted"),
    }
    let tensor = SparseCsrTensor::new(pattern, &[2], vec![1.0, 2.0]).unwrap();
    assert_eq!(tensor.values(), &[1.0, 2.0]);
    assert_eq!(tensor.pattern().nnz(), 2);
}

#[test]
fn require_vector_checks_shape() {
    assert_eq!(require_vector("rhs", &[3], 3, 3), Ok(()));
    assert_eq!(
        require_vector("rhs", &[3], 3, 4),
        Err(OperatorError::DimensionMismatch { name: "rhs", expected: 4, actual: 3 })
    );
    assert_eq!(
        require_vector("input", &[2, 2], 4, 4),
        Err(OperatorError::DimensionMismatch { name: "input", expected: 4, actual: 4 })
    );
}

fn coo_error(
    shape: Vec<usize>,
    coordinate_shape: &[usize],
    coordinates: Option<Vec<i64>>,
    value_shape: &[usize],
    values: Option<Vec<f64>>,
) -> PatternError {
    match SparseCooTensor::from_parts(shape, coordinate_shape, coordinates, value_shape, values) {
        Err(OperatorError::InvalidSparsePattern(reason)) => reason,
        Err(other) => panic!("unexpected error {:?}", other),
        Ok(_) => panic!("invalid COO parts were accepted"),
    }
}

#[test]
fn coo_import_refusals() {
    assert_eq!(
        coo_error(vec![2], &[2, 1], Some(vec![0, 0]), &[1], Some(vec![1.0])),
        PatternError::CooRank { rank: 1 }
    );
    assert_eq!(
        coo_error(vec![2, 2], &[2, 1], None, &[1], Some(vec![1.0])),
        PatternError::CooCoordinateType
    );
    assert_eq!(
        coo_error(vec![2, 2], &[3, 1], Some(vec![0, 0, 0]), &[1], Some(vec![1.0])),
        PatternError::CooCoordinateShape
    );
    assert_eq!(
        coo_error(vec![2, 2], &[2, 2], Some(vec![0, 0, 1]), &[2], Some(vec![1.0, 2.0])),
        PatternError::CooCoordinateShape
    );
    assert_eq!(
        coo_error(vec![2, 2], &[2, 1], Some(vec![0, 0]), &[2], Some(vec![1.0, 2.0])),
        PatternError::CooValues { nnz: 1 }
    );
    assert_eq!(
        coo_error(vec![2, 2], &[2, 2], Some(vec![0, 0, 1, 1]), &[2], Some(vec![1.0])),
        PatternError::CooValues { nnz: 2 }
    );
    assert_eq!(
        coo_error(vec![2, 2], &[2, 1], Some(vec![0, 0]), &[1], None),
        PatternError::CooValues { nnz: 1 }
    );
    assert_eq!(
        coo_error(vec![2, 2], &[2, 1], Some(vec![-1, 0]), &[1], Some(vec![1.0])),
        PatternError::NegativeRow
    );
    assert_eq!(
        coo_error(vec![2, 2], &[2, 1], Some(vec![0, -3]), &[1], Some(vec![1.0])),
        PatternError::NegativeColumn
    );
    assert_eq!(
        coo_error(vec![2, 2], &[2, 2], Some(vec![1, 1, 0, 2]), &[2], Some(vec![1.0, 2.0])),
        PatternError::CooCoordinateOutOfBounds { row: 0, column: 2 }
    );
}

#[test]
fn coo_import_combines_repeated_coordinates() -> Result<(), OperatorError> {
    let coo = SparseCooTensor::from_parts(
        vec![2, 3],
        &[2, 3],
        Some(vec![1_i64, 2, 0, 1, 1, 2]),
        &[3],
        Some(vec![1.5_f64, 2.0, 0.25]),
    )?;
    assert_eq!(coo.shape(), &[2, 3]);
    assert_eq!(coo.coordinates(), &[1, 2, 0, 1, 1, 2]);
    assert_eq!(coo.values(), &[1.5, 2.0, 0.25]);
    let matrix = SparseCsrTensor::from_coo(&coo, |a: f64, b: f64| a + b)?;
    assert_eq!(matrix.pattern().row_offsets(), &[0, 1, 2]);
    assert_eq!(matrix.pattern().column_indices(), &[1, 2]);
    assert_eq!(matrix.values(), &[2.0, 1.75]);
    Ok(())
}

#[test]
fn assembled_pattern_ignores_push_order() -> Result<(), OperatorError> {
    let triplets = [(2usize, 1usize, 1i64), (0, 3, 2), (1, 0, 3), (0, 1, 4), (2, 1, 5), (1, 2, 6)];
    let mut forward = SparseCooBuilder::new(3, 4);
    for &(r, c, v) in triplets.iter() {
        forward.push(r, c, v)?;
    }
    let mut backward = SparseCooBuilder::new(3, 4);
    for &(r, c, v) in triplets.iter().rev() {
        backward.push(r, c, v)?;
    }
    let a = forward.build(|x: i64, y: i64| x + y)?;
    let b = backward.build(|x: i64, y: i64| x + y)?;
    assert_eq!(a.pattern().row_offsets(), b.pattern().row_offsets());
    assert_eq!(a.pattern().column_indices(), b.pattern().column_indices());
    assert_eq!(a.pattern().row_offsets(), &[0, 2, 4, 5]);
    assert_eq!(a.pattern().column_indices(), &[1, 3, 0, 2, 1]);
    assert_eq!(a.values(), &[4, 2, 3, 6, 6]);
    assert_eq!(a.values(), b.values());
    Ok(())
}

#[test]
fn csr_apply_multiplies_rows() -> Result<(), OperatorError> {
    // [[2, 0, 1], [0, 0, 0], [0, 3, 4]]
    let pattern = Arc::new(SparseCsrPattern::new([3, 3], vec![0, 2, 2, 4], vec![0, 2, 1, 2])?);
    let matrix = SparseCsrTensor::new(pattern, &[4], vec![2_i64, 1, 3, 4])?;
    let y = matrix.apply_with(&[5_i64, 6, 7], 0_i64, |acc: i64, a: i64, x: i64| acc + a * x)?;
    assert_eq!(y, vec![17, 0, 46]);
    Ok(())
}

#[test]
fn csr_apply_folds_row_entries_in_order() -> Result<(), OperatorError> {
    let pattern = Arc::new(SparseCsrPattern::new([1, 3], vec![0, 3], vec![0, 1, 2])?);
    let matrix = SparseCsrTensor::new(pattern, &[3], vec![1_i64, 2, 3])?;
    let y = matrix.apply_with(&[1_i64, 1, 1], 0_i64, |acc: i64, a: i64, x: i64| acc * 10 + a * x)?;
    assert_eq!(y, vec![123]);
    Ok(())
}

#[test]
fn csr_apply_refuses_wrong_input_length() -> Result<(), OperatorError> {
    let pattern = Arc::new(SparseCsrPattern::new([2, 3], vec![0, 1, 1], vec![2])?);
    let matrix = SparseCsrTensor::new(pattern, &[1], vec![1.0_f64])?;
    assert_eq!(
        matrix.apply_with(&[1.0_f64, 2.0], 0.0_f64, |acc: f64, a: f64, x: f64| acc + a * x),
        Err(OperatorError::DimensionMismatch { name: "input", expected: 3, actual: 2 })
    );
    Ok(())
}

#[test]
fn coo_import_matches_pushing_into_builder() -> Result<(), OperatorError> {
    let coordinates = vec![2_i64, 1, 0, 3, 2, 1, 1, 0, 0, 3];
    let values = vec![5_i64, 7, 11, 13, 17];
    let coo = SparseCooTensor::from_parts(vec![3, 4], &[2, 5], Some(coordinates.clone()), &[5], Some(values.clone()))?;
    let imported = SparseCsrTensor::from_coo(&coo, |a: i64, b: i64| a * 100 + b)?;
    let mut builder = SparseCooBuilder::new(3, 4);
    for k in 0..values.len() {
        builder.push(coordinates[2 * k] as usize, coordinates[2 * k + 1] as usize, values[k])?;
    }
    let built = builder.build(|a: i64, b: i64| a * 100 + b)?;
    assert_eq!(imported.pattern().row_offsets(), built.pattern().row_offsets());
    assert_eq!(imported.pattern().column_indices(), built.pattern().column_indices());
    assert_eq!(imported.values(), built.values());
    assert_eq!(imported.values(), &[717, 13, 511]);
    Ok(())
}
