use poisson::grid::{
    embed_interior, idx, interior_of, odd_extend_axis0, odd_extend_axis1, take_dst_axis0,
    take_dst_axis1,
};
use poisson::jacobi::{next_sweep_step, pair_schedule, RowStep, SweepStep};
use poisson::sparse::OperatorError;
use poisson::stencil::{five_point_apply, five_point_builder};

#[test]
fn idx_is_column_major() {
    assert_eq!(idx(0, 0, 5), 0);
    assert_eq!(idx(3, 2, 5), 13);
    assert_eq!(idx(4, 4, 5), 24);
}

#[test]
fn interior_round_trip() {
    let interior = vec![1, 2, 3, 4];
    let grid = embed_interior(&interior, 4, 0);
    assert_eq!(grid, vec![0, 0, 0, 0, 0, 1, 2, 0, 0, 3, 4, 0, 0, 0, 0, 0]);
    assert_eq!(interior_of(&grid, 4), interior);
    assert_eq!(embed_interior::<u8>(&[], 2, 7), vec![7, 7, 7, 7]);
    assert!(interior_of(&[1, 2, 3, 4], 2).is_empty());
}

#[test]
fn odd_extensions() {
    // Two columns of m = 2 values.
    let x = [1i32, 2, 3, 4];
    let (s, nfft) = odd_extend_axis0(&x, 2, 2, 0, |v: i32| -v);
    assert_eq!(nfft, 6);
    assert_eq!(s, vec![0, 1, 2, 0, -2, -1, 0, 3, 4, 0, -4, -3]);
    // Two rows of m = 2 values, column-major [2, 2].
    let (t, nfft) = odd_extend_axis1(&x, 2, 2, 0, |v: i32| -v);
    assert_eq!(nfft, 6);
    assert_eq!(t, vec![0, 0, 1, 2, 3, 4, 0, 0, -3, -4, -1, -2]);
}

#[test]
fn dst_coefficient_extraction() {
    let spec: Vec<i32> = (0..12).collect();
    // nfft = 6, two columns, m = 2: entries 1, 2 of each column.
    assert_eq!(take_dst_axis0(&spec, 6, 2, 2, |v: i32| v * 10), vec![10, 20, 70, 80]);
    // nrows = 2, columns 1 and 2 of a [2, 6] spectrum.
    assert_eq!(take_dst_axis1(&spec, 2, 6, 2, |v: i32| -v), vec![-2, -3, -4, -5]);
    // Reads may run past a column's length as long as they stay in the
    // buffer: nfft = 2, m = 3 reads entries 1, 2, 3 and 3, 4, 5.
    assert_eq!(take_dst_axis0(&spec[..7], 2, 2, 3, |v: i32| v), vec![1, 2, 3, 3, 4, 5]);
    // No coefficients asked for, nothing read.
    assert_eq!(take_dst_axis1(&spec[..0], 4, 6, 0, |v: i32| v), Vec::<i32>::new());
}

#[test]
fn sweep_schedule() {
    assert_eq!(next_sweep_step(0, 5), SweepStep::Pair { check_error: false });
    assert_eq!(next_sweep_step(2, 5), SweepStep::Pair { check_error: false });
    assert_eq!(next_sweep_step(4, 5), SweepStep::Single);
    assert_eq!(next_sweep_step(5, 5), SweepStep::Done);
    assert_eq!(next_sweep_step(2, 4), SweepStep::Pair { check_error: true });
    assert_eq!(next_sweep_step(998, 5000), SweepStep::Pair { check_error: true });
    assert_eq!(next_sweep_step(996, 5000), SweepStep::Pair { check_error: false });
    assert_eq!(next_sweep_step(0, 0), SweepStep::Done);
    // Run the whole schedule: it ends exactly at the limit.
    let maxiter = 2501;
    let mut iterations = 0;
    let mut checks = Vec::new();
    loop {
        match next_sweep_step(iterations, maxiter) {
            SweepStep::Pair { check_error } => {
                iterations += 2;
                if check_error {
                    checks.push(iterations);
                }
            }
            SweepStep::Single => {
                iterations += 1;
                checks.push(iterations);
            }
            SweepStep::Done => break,
        }
    }
    assert_eq!(iterations, maxiter);
    assert_eq!(checks, vec![1000, 2000, 2501]);
}

#[test]
fn five_point_triplets() {
    let builder = five_point_builder(2, 4, -1);
    let matrix = builder.build(|a: i32, b: i32| a + b).unwrap();
    assert_eq!(matrix.shape(), [4, 4]);
    assert_eq!(matrix.pattern().row_offsets(), &[0, 3, 6, 9, 12]);
    assert_eq!(matrix.pattern().column_indices(), &[0, 1, 2, 0, 1, 3, 0, 2, 3, 1, 2, 3]);
    assert_eq!(matrix.values(), &[4, -1, -1, -1, 4, -1, -1, 4, -1, -1, -1, 4]);
}

#[test]
fn five_point_interior_point_has_four_neighbours() {
    let matrix = five_point_builder(3, 4.0, -1.0).build(|a: f64, b: f64| a + b).unwrap();
    let offsets = matrix.pattern().row_offsets();
    assert_eq!(offsets.len(), 10);
    assert_eq!(offsets[5] - offsets[4], 5);
    assert_eq!(matrix.pattern().nnz(), 9 + 2 * 2 * 3 * 2);
    let single = five_point_builder(1, 4.0, -1.0).build(|a: f64, b: f64| a + b).unwrap();
    assert_eq!(single.values(), &[4.0]);
}

#[test]
fn five_point_matrix_is_symmetric() {
    let size = 4;
    let matrix = five_point_builder(size, 4, -1).build(|a: i32, b: i32| a + b).unwrap();
    let offsets = matrix.pattern().row_offsets();
    let indices = matrix.pattern().column_indices();
    let values = matrix.values();
    let n = size * size;
    let mut dense = vec![0i32; n * n];
    for r in 0..n {
        for p in offsets[r]..offsets[r + 1] {
            dense[r * n + indices[p]] = values[p];
        }
    }
    for r in 0..n {
        assert_eq!(dense[r * n + r], 4);
        for c in 0..n {
            assert_eq!(dense[r * n + c], dense[c * n + r]);
        }
    }
}

fn laplacian_point(c: i64, l: Option<i64>, r: Option<i64>, b: Option<i64>, a: Option<i64>) -> i64 {
    4 * c - l.unwrap_or(0) - r.unwrap_or(0) - b.unwrap_or(0) - a.unwrap_or(0)
}

#[test]
fn matrix_free_five_point_apply() -> Result<(), OperatorError> {
    // 2 × 2 interior, unknowns t = i + 2j.
    let y = five_point_apply(2, &[1_i64, 2, 3, 4], laplacian_point)?;
    assert_eq!(y, vec![4 - 2 - 3, 8 - 1 - 4, 12 - 4 - 1, 16 - 3 - 2]);
    Ok(())
}

#[test]
fn matrix_free_matches_assembled_matrix() -> Result<(), OperatorError> {
    let size = 3;
    let x: Vec<i64> = (0..9).map(|k| k * k - 3 * k + 1).collect();
    let free = five_point_apply(size, &x, laplacian_point)?;
    let matrix = five_point_builder(size, 4_i64, -1_i64).build(|a: i64, b: i64| a + b)?;
    let assembled = matrix.apply_with(&x, 0_i64, |acc: i64, a: i64, v: i64| acc + a * v)?;
    assert_eq!(free, assembled);
    Ok(())
}

#[test]
fn matrix_free_refuses_wrong_length() {
    assert_eq!(
        five_point_apply(2, &[1_i64, 2, 3], laplacian_point),
        Err(OperatorError::DimensionMismatch { name: "input", expected: 4, actual: 3 })
    );
}

#[test]
fn five_point_matrix_stores_five_m_squared_minus_four_m() -> Result<(), OperatorError> {
    for m in 1..6usize {
        let matrix = five_point_builder(m, 4_i64, -1_i64).build(|a: i64, b: i64| a + b)?;
        assert_eq!(matrix.pattern().nnz(), 5 * m * m - 4 * m);
    }
    Ok(())
}

#[test]
fn pair_schedule_order() {
    assert_eq!(pair_schedule(3), vec![RowStep::First(1), RowStep::Second(1)]);
    assert_eq!(
        pair_schedule(5),
        vec![
            RowStep::First(1),
            RowStep::First(2),
            RowStep::Second(1),
            RowStep::First(3),
            RowStep::Second(2),
            RowStep::Second(3),
        ]
    );
}

// Interior points of row `j` of `out` from the five-point neighbours in `input`.
fn integer_row(input: &[i64], out: &mut [i64], n: usize, j: usize) {
    for i in 1..n - 1 {
        let k = i + n * j;
        out[k] = input[k - 1] + input[k + 1] + input[k - n] + input[k + n] + 3 * input[k] + 7 * (i as i64) - (j as i64);
    }
}

#[test]
fn builder_sorts_many_triplets() -> Result<(), OperatorError> {
    let n = 300usize;
    let mut builder = poisson::coo::SparseCooBuilder::new(n, n);
    for k in (0..3 * n).rev() {
        builder.push(k % n, (7 * k) % n, 1_i64)?;
    }
    let matrix = builder.build(|a: i64, b: i64| a + b)?;
    assert_eq!(matrix.pattern().row_offsets().len(), n + 1);
    assert_eq!(matrix.values().iter().sum::<i64>(), 3 * n as i64);
    Ok(())
}

#[test]
fn pipelined_schedule_matches_two_sweeps() {
    const N: usize = 9;
    let initial: Vec<i64> = (0..N * N).map(|k| ((5 * k + 3) % 17) as i64 - 8).collect();
    let scratch: Vec<i64> = (0..N * N).map(|k| ((11 * k) % 13) as i64).collect();

    let mut first = scratch.clone();
    for j in 1..N - 1 {
        integer_row(&initial, &mut first, N, j);
    }
    let mut expected = initial.clone();
    for j in 1..N - 1 {
        integer_row(&first, &mut expected, N, j);
    }

    let mut u = initial.clone();
    let mut tmp = scratch.clone();
    for step in pair_schedule(N) {
        match step {
            RowStep::First(j) => {
                let input = u.clone();
                integer_row(&input, &mut tmp, N, j);
            }
            RowStep::Second(j) => {
                let input = tmp.clone();
                integer_row(&input, &mut u, N, j);
            }
        }
    }
    assert_eq!(tmp, first);
    assert_eq!(u, expected);
}
