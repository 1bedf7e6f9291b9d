//! The sweep schedule of the pipelined Jacobi driver.
//!
//! The driver advances two sweeps at a time. The update width of the second
//! sweep of a pair is measured only when the pair ends on a multiple of
//! [`CHECK_INTERVAL`] or on the iteration limit; when the limit is odd, one
//! last single sweep is made and measured.
//!
//! A pair of sweeps is pipelined by row: row `j + 1` of the first sweep is
//! computed just before row `j` of the second, so that the second sweep reads
//! rows of the first while they are still in cache. [`pair_schedule`] gives
//! that order, and [`lemma_pair_is_two_sweeps`] proves that, for any row
//! kernel that reads only the three rows around the one it writes, running it
//! gives exactly what two plain sweeps give.

use vstd::prelude::*;

verus! {

/// Sweeps between two measurements of the update width.
pub const CHECK_INTERVAL: usize = 1000;

/// What the Jacobi driver does next.
#[derive(Debug, Clone, Copy, PartialEq, Eq)]
pub enum SweepStep {
    /// Two sweeps; the update width of the second is measured when
    /// `check_error` holds.
    Pair { check_error: bool },
    /// One last sweep, whose update width is measured.
    Single,
    /// The iteration limit is reached.
    Done,
}

/// The step the driver takes after `iterations` of at most `maxiter` sweeps.
pub open spec fn sweep_step(iterations: int, maxiter: int) -> SweepStep {
    if maxiter - iterations >= 2 {
        SweepStep::Pair {
            check_error: (iterations + 2) % (CHECK_INTERVAL as int) == 0 || iterations + 2 == maxiter,
        }
    } else if iterations < maxiter {
        SweepStep::Single
    } else {
        SweepStep::Done
    }
}

/// Number of sweeps a step makes.
pub open spec fn step_sweeps(step: SweepStep) -> int {
    match step {
        SweepStep::Pair { .. } => 2,
        SweepStep::Single => 1,
        SweepStep::Done => 0,
    }
}

/// The driver measures the update width every `CHECK_INTERVAL` sweeps and
/// at the limit, and at no other pair: a pair that ends on a multiple of
/// `CHECK_INTERVAL`, or on the limit, is measured, and a measured pair ends
/// on one of them. While two sweeps remain the driver takes a pair.
pub proof fn lemma_measured_every_interval(iterations: int, maxiter: int)
    requires
        0 <= iterations <= maxiter,
    ensures
        iterations + 2 <= maxiter ==> (sweep_step(iterations, maxiter) is Pair),
        iterations + 2 <= maxiter && (iterations + 2) % (CHECK_INTERVAL as int) == 0 ==> sweep_step(
            iterations,
            maxiter,
        ) == (SweepStep::Pair { check_error: true }),
        iterations + 2 == maxiter ==> sweep_step(iterations, maxiter) == (SweepStep::Pair { check_error: true }),
        sweep_step(iterations, maxiter) == (SweepStep::Pair { check_error: true }) ==> (iterations
            + 2) % (CHECK_INTERVAL as int) == 0 || iterations + 2 == maxiter,
        iterations + 1 == maxiter ==> sweep_step(iterations, maxiter) == (SweepStep::Single),
        iterations == maxiter ==> sweep_step(iterations, maxiter) == (SweepStep::Done),
{
}

/// The step the driver takes after `iterations` of at most `maxiter` sweeps.
pub fn next_sweep_step(iterations: usize, maxiter: usize) -> (r: SweepStep)
    requires
        iterations <= maxiter,
    ensures
        r == sweep_step(iterations as int, maxiter as int),
        iterations + 2 <= maxiter && (iterations + 2) % (CHECK_INTERVAL as int) == 0 ==> r == (SweepStep::Pair { check_error: true }),
        iterations + 2 == maxiter ==> r == (SweepStep::Pair { check_error: true }),
        r == (SweepStep::Pair { check_error: true }) ==> (iterations + 2) % (CHECK_INTERVAL as int) == 0
            || iterations + 2 == maxiter,
{
    proof {
        lemma_measured_every_interval(iterations as int, maxiter as int);
    }
    if maxiter - iterations >= 2 {
        let iter = iterations + 2;
        SweepStep::Pair { check_error: iter % CHECK_INTERVAL == 0 || iter == maxiter }
    } else if iterations < maxiter {
        SweepStep::Single
    } else {
        SweepStep::Done
    }
}

/// Sweeps made in total when the schedule runs from `iterations` to its end
/// without converging early.
pub open spec fn scheduled_sweeps(iterations: int, maxiter: int) -> int
    decreases maxiter - iterations,
{
    if iterations >= maxiter {
        iterations
    } else {
        scheduled_sweeps(iterations + step_sweeps(sweep_step(iterations, maxiter)), maxiter)
    }
}

/// Without early convergence the schedule makes exactly `maxiter` sweeps,
/// never overshooting the limit, and the update width of the sweep that
/// reaches the limit is measured.
pub proof fn lemma_schedule_reaches_limit(iterations: int, maxiter: int)
    requires
        0 <= iterations <= maxiter,
    ensures
        scheduled_sweeps(iterations, maxiter) == maxiter,
        iterations < maxiter ==> iterations + step_sweeps(sweep_step(iterations, maxiter)) <= maxiter,
        iterations + step_sweeps(sweep_step(iterations, maxiter)) == maxiter && iterations < maxiter
            ==> match sweep_step(iterations, maxiter) {
            SweepStep::Pair { check_error } => check_error,
            SweepStep::Single => true,
            SweepStep::Done => false,
        },
    decreases maxiter - iterations,
{
    if iterations < maxiter {
        lemma_schedule_reaches_limit(
            iterations + step_sweeps(sweep_step(iterations, maxiter)),
            maxiter,
        );
    }
}

/// One row update of a pipelined pair of sweeps on an `n × n` grid stored
/// row after row.
#[derive(Debug, Clone, Copy, PartialEq, Eq)]
pub enum RowStep {
    /// Row `j` of the first sweep: read the grid, write the scratch grid.
    First(usize),
    /// Row `j` of the second sweep: read the scratch grid, write the grid.
    Second(usize),
}

/// The steps of a pipelined pair on an `n × n` grid up to round `k`: row 1
/// of the first sweep, then in round `k` row `k + 1` of the first sweep
/// (while it is interior) followed by row `k` of the second.
pub open spec fn pair_steps(n: int, k: int) -> Seq<RowStep>
    decreases k,
{
    if k <= 0 {
        seq![RowStep::First(1)]
    } else if k < n - 2 {
        pair_steps(n, k - 1).push(RowStep::First((k + 1) as usize)).push(RowStep::Second(k as usize))
    } else {
        pair_steps(n, k - 1).push(RowStep::Second(k as usize))
    }
}

/// The order in which a pipelined pair of sweeps updates the interior rows
/// `1 .. n - 1` of an `n × n` grid.
pub fn pair_schedule(n: usize) -> (r: Vec<RowStep>)
    requires
        3 <= n,
    ensures
        r@ == pair_steps(n as int, n - 2),
{
    let mut steps: Vec<RowStep> = Vec::new();
    steps.push(RowStep::First(1));
    let mut k: usize = 1;
    while k <= n - 2
        invariant
            3 <= n,
            1 <= k <= n - 1,
            steps@ == pair_steps(n as int, k - 1),
        decreases n - k,
    {
        if k < n - 2 {
            steps.push(RowStep::First(k + 1));
        }
        steps.push(RowStep::Second(k));
        k += 1;
    }
    steps
}

/// The kernel reads only rows `j - 1`, `j` and `j + 1` of its input grid
/// (and the old contents of the row it writes) when it writes interior row
/// `j` of an `n × n` grid.
pub open spec fn row_local<T>(kernel: spec_fn(Seq<Seq<T>>, Seq<T>, int) -> Seq<T>, n: int) -> bool {
    forall|a: Seq<Seq<T>>, b: Seq<Seq<T>>, old_row: Seq<T>, j: int|
        1 <= j < n - 1 && a[j - 1] == b[j - 1] && a[j] == b[j] && a[j + 1] == b[j + 1]
            ==> #[trigger] kernel(a, old_row, j) == #[trigger] kernel(b, old_row, j)
}

/// `out` with rows `1 ..= k` rewritten by `kernel` from `input`.
pub open spec fn sweep_rows<T>(
    kernel: spec_fn(Seq<Seq<T>>, Seq<T>, int) -> Seq<T>,
    input: Seq<Seq<T>>,
    out: Seq<Seq<T>>,
    k: int,
) -> Seq<Seq<T>>
    decreases k,
{
    if k <= 0 {
        out
    } else {
        sweep_rows(kernel, input, out, k - 1).update(k, kernel(input, out[k], k))
    }
}

/// One plain sweep on an `n × n` grid: every interior row of `out` rewritten
/// from `input`; the boundary rows stay.
pub open spec fn sweep<T>(
    kernel: spec_fn(Seq<Seq<T>>, Seq<T>, int) -> Seq<T>,
    input: Seq<Seq<T>>,
    out: Seq<Seq<T>>,
    n: int,
) -> Seq<Seq<T>> {
    sweep_rows(kernel, input, out, n - 2)
}

/// The grid and the scratch grid after one step.
pub open spec fn apply_step<T>(
    kernel: spec_fn(Seq<Seq<T>>, Seq<T>, int) -> Seq<T>,
    grids: (Seq<Seq<T>>, Seq<Seq<T>>),
    step: RowStep,
) -> (Seq<Seq<T>>, Seq<Seq<T>>) {
    let (u, tmp) = grids;
    match step {
        RowStep::First(j) => (u, tmp.update(j as int, kernel(u, tmp[j as int], j as int))),
        RowStep::Second(j) => (u.update(j as int, kernel(tmp, u[j as int], j as int)), tmp),
    }
}

/// The grid and the scratch grid after `steps`, in order.
pub open spec fn run_steps<T>(
    kernel: spec_fn(Seq<Seq<T>>, Seq<T>, int) -> Seq<T>,
    grids: (Seq<Seq<T>>, Seq<Seq<T>>),
    steps: Seq<RowStep>,
) -> (Seq<Seq<T>>, Seq<Seq<T>>)
    decreases steps.len(),
{
    if steps.len() == 0 {
        grids
    } else {
        apply_step(kernel, run_steps(kernel, grids, steps.drop_last()), steps.last())
    }
}

proof fn lemma_sweep_rows_index<T>(
    kernel: spec_fn(Seq<Seq<T>>, Seq<T>, int) -> Seq<T>,
    input: Seq<Seq<T>>,
    out: Seq<Seq<T>>,
    k: int,
    r: int,
)
    requires
        0 <= k < out.len(),
        0 <= r < out.len(),
    ensures
        sweep_rows(kernel, input, out, k).len() == out.len(),
        sweep_rows(kernel, input, out, k)[r] == if 1 <= r <= k {
            kernel(input, out[r], r)
        } else {
            out[r]
        },
    decreases k,
{
    if k > 0 {
        lemma_sweep_rows_index(kernel, input, out, k - 1, r);
    }
}

proof fn lemma_run_push<T>(
    kernel: spec_fn(Seq<Seq<T>>, Seq<T>, int) -> Seq<T>,
    grids: (Seq<Seq<T>>, Seq<Seq<T>>),
    steps: Seq<RowStep>,
    step: RowStep,
)
    ensures
        run_steps(kernel, grids, steps.push(step)) == apply_step(
            kernel,
            run_steps(kernel, grids, steps),
            step,
        ),
{
    assert(steps.push(step).drop_last() =~= steps);
}

/// After round `k` of a pipelined pair, the grid has rows `1 ..= k` of the
/// second sweep and the scratch grid rows `1 ..= k + 1` of the first (all
/// interior rows once `k + 1` reaches the boundary).
proof fn lemma_pair_rounds<T>(
    kernel: spec_fn(Seq<Seq<T>>, Seq<T>, int) -> Seq<T>,
    n: int,
    u: Seq<Seq<T>>,
    tmp: Seq<Seq<T>>,
    k: int,
)
    requires
        3 <= n <= usize::MAX,
        u.len() == n,
        tmp.len() == n,
        row_local(kernel, n),
        0 <= k <= n - 2,
    ensures
        run_steps(kernel, (u, tmp), pair_steps(n, k)) == (
            sweep_rows(kernel, sweep(kernel, u, tmp, n), u, k),
            sweep_rows(kernel, u, tmp, if k + 1 < n - 2 { k + 1 } else { n - 2 }),
        ),
    decreases k,
{
    let first = sweep(kernel, u, tmp, n);
    if k == 0 {
        let steps = pair_steps(n, 0);
        assert(steps == Seq::<RowStep>::empty().push(RowStep::First(1)));
        lemma_run_push(kernel, (u, tmp), Seq::<RowStep>::empty(), RowStep::First(1));
        assert(run_steps(kernel, (u, tmp), Seq::<RowStep>::empty()) == (u, tmp));
        let m: int = if k + 1 < n - 2 { k + 1 } else { n - 2 };
        assert(m == 1);
        assert(sweep_rows(kernel, u, tmp, 0) == tmp);
        assert(sweep_rows(kernel, u, tmp, 1) == tmp.update(1, kernel(u, tmp[1], 1)));
        assert(sweep_rows(kernel, first, u, 0) == u);
    } else {
        lemma_pair_rounds(kernel, n, u, tmp, k - 1);
        let prev = pair_steps(n, k - 1);
        let u_cur = sweep_rows(kernel, first, u, k - 1);
        let tmp_prev = sweep_rows(kernel, u, tmp, k);
        assert(run_steps(kernel, (u, tmp), prev) == (u_cur, tmp_prev));
        // The first sweep's rows up to the current one, as the second sweep
        // reads them.
        let tmp_cur = if k < n - 2 {
            sweep_rows(kernel, u, tmp, k + 1)
        } else {
            tmp_prev
        };
        if k < n - 2 {
            let j = k + 1;
            lemma_run_push(kernel, (u, tmp), prev, RowStep::First(j as usize));
            lemma_sweep_rows_index(kernel, u, tmp, k, j);
            assert forall|r: int| j - 1 <= r <= j + 1 implies u_cur[r] == u[r] by {
                lemma_sweep_rows_index(kernel, first, u, k - 1, r);
            }
            assert(kernel(u_cur, tmp[j], j) == kernel(u, tmp[j], j));
            assert(run_steps(kernel, (u, tmp), prev.push(RowStep::First(j as usize))) == (
                u_cur,
                tmp_cur,
            ));
            lemma_run_push(
                kernel,
                (u, tmp),
                prev.push(RowStep::First(j as usize)),
                RowStep::Second(k as usize),
            );
        } else {
            lemma_run_push(kernel, (u, tmp), prev, RowStep::Second(k as usize));
        }
        assert(run_steps(kernel, (u, tmp), pair_steps(n, k)) == apply_step(
            kernel,
            (u_cur, tmp_cur),
            RowStep::Second(k as usize),
        ));
        lemma_sweep_rows_index(kernel, first, u, k - 1, k);
        assert forall|r: int| k - 1 <= r <= k + 1 implies tmp_cur[r] == first[r] by {
            lemma_sweep_rows_index(kernel, u, tmp, n - 2, r);
            if k < n - 2 {
                lemma_sweep_rows_index(kernel, u, tmp, k + 1, r);
            } else {
                lemma_sweep_rows_index(kernel, u, tmp, k, r);
            }
        }
        assert(kernel(tmp_cur, u[k], k) == kernel(first, u[k], k));
        assert(u_cur[k] == u[k]);
        assert(sweep_rows(kernel, first, u, k) == u_cur.update(k, kernel(first, u[k], k)));
        assert(tmp_cur == sweep_rows(kernel, u, tmp, if k + 1 < n - 2 { k + 1 } else { n - 2 }));
    }
}

/// A pipelined pair of sweeps is two plain sweeps: for any row kernel that
/// reads only the three rows around the one it writes, running
/// `pair_schedule(n)` on the grid `u` and the scratch grid `tmp` leaves in
/// `tmp` the first sweep of `u` and in `u` the sweep of that result.
pub proof fn lemma_pair_is_two_sweeps<T>(
    kernel: spec_fn(Seq<Seq<T>>, Seq<T>, int) -> Seq<T>,
    n: int,
    u: Seq<Seq<T>>,
    tmp: Seq<Seq<T>>,
)
    requires
        3 <= n <= usize::MAX,
        u.len() == n,
        tmp.len() == n,
        row_local(kernel, n),
    ensures
        ({
            let first = sweep(kernel, u, tmp, n);
            run_steps(kernel, (u, tmp), pair_steps(n, n - 2)) == (sweep(kernel, first, u, n), first)
        }),
{
    lemma_pair_rounds(kernel, n, u, tmp, n - 2);
}

} // verus!
