//! Column-major grids on the unit square: point numbering, the interior of
//! a grid with its Dirichlet boundary, and the odd extensions and spectrum
//! extraction behind the discrete sine transform.
//!
//! Point `(i, j)` of a grid with `n` points per column is entry `i + n * j`
//! of its buffer: the first index varies fastest.

use vstd::prelude::*;

verus! {

/// Column-major index of point `(i, j)` of a grid with `n` points per
/// column.
pub fn idx(i: usize, j: usize, n: usize) -> (r: usize)
    requires
        i + n * j <= usize::MAX,
    ensures
        r == i + n * j,
{
    assert(0 <= n * j <= i + n * j) by (nonlinear_arith)
        requires
            0 <= n,
            0 <= j,
            0 <= i,
    ;
    i + n * j
}

/// Point `(i, j)` of an `n × n` grid lies inside it, and its column ends
/// inside it.
pub proof fn lemma_point_in_grid(i: int, j: int, n: int)
    requires
        0 <= i < n,
        0 <= j < n,
    ensures
        0 <= i + n * j < n * n,
        n * j + n <= n * n,
{
    assert(0 <= n * j) by (nonlinear_arith)
        requires
            0 <= j,
            0 <= n,
    ;
    assert(n * j + n <= n * n) by (nonlinear_arith)
        requires
            0 <= j < n,
    ;
}

/// Point `(i, j)` of an `n × n` grid lies on its boundary.
pub open spec fn on_boundary(i: int, j: int, n: int) -> bool {
    i == 0 || j == 0 || i == n - 1 || j == n - 1
}

/// The interior `(n - 2) × (n - 2)` points of an `n × n` grid, in
/// column-major order: interior point `(i, j)` is grid point `(i + 1, j + 1)`.
pub fn interior_of<T: Copy>(grid: &[T], n: usize) -> (r: Vec<T>)
    requires
        n >= 2,
        n * n <= grid@.len(),
    ensures
        r@.len() == (n - 2) * (n - 2),
        forall|i: int, j: int|
            0 <= i < n - 2 && 0 <= j < n - 2 ==> #[trigger] r@[i + (n - 2) * j] == grid@[(i + 1) + n
                * (j + 1)],
{
    let len = grid.len();
    let m = n - 2;
    proof {
        assert(m * m <= n * n) by (nonlinear_arith)
            requires
                m + 2 == n,
                m >= 0,
        ;
    }
    let mut out: Vec<T> = Vec::new();
    let mut j: usize = 0;
    while j < m
        invariant
            m == n - 2,
            n * n <= len,
            len == grid@.len(),
            j <= m,
            out@.len() == m * j,
            forall|a: int, b: int|
                0 <= a < m && 0 <= b < j ==> #[trigger] out@[a + m * b] == grid@[(a + 1) + n * (b
                    + 1)],
        decreases m - j,
    {
        let mut i: usize = 0;
        while i < m
            invariant
                m == n - 2,
                n * n <= len,
                len == grid@.len(),
                j < m,
                i <= m,
                out@.len() == m * j + i,
                forall|a: int, b: int|
                    0 <= a < m && 0 <= b < j ==> #[trigger] out@[a + m * b] == grid@[(a + 1) + n * (
                    b + 1)],
                forall|a: int| 0 <= a < i ==> #[trigger] out@[a + m * j] == grid@[(a + 1) + n * (j + 1)],
            decreases m - i,
        {
            proof {
                lemma_point_in_grid(i + 1, j + 1, n as int);
            }
            let ghost before = out@;
            out.push(grid[idx(i + 1, j + 1, n)]);
            proof {
                assert forall|a: int, b: int| 0 <= a < m && 0 <= b < j implies #[trigger] out@[a + m * b]
                    == grid@[(a + 1) + n * (b + 1)] by {
                    lemma_point_in_grid(a, b, m as int);
                    assert(a + m * b < m * j) by (nonlinear_arith)
                        requires
                            0 <= a < m,
                            0 <= b < j,
                    ;
                    assert(out@[a + m * b] == before[a + m * b]);
                }
                assert forall|a: int| 0 <= a < i + 1 implies #[trigger] out@[a + m * j] == grid@[(a + 1)
                    + n * (j + 1)] by {
                    if a < i {
                        assert(out@[a + m * j] == before[a + m * j]);
                    }
                }
            }
            i += 1;
        }
        proof {
            assert(m * j + m == m * (j + 1)) by (nonlinear_arith);
            assert forall|a: int, b: int| 0 <= a < m && 0 <= b < j + 1 implies #[trigger] out@[a + m * b]
                == grid@[(a + 1) + n * (b + 1)] by {
                if b == j {
                    assert(out@[a + m * j] == grid@[(a + 1) + n * (j + 1)]);
                }
            }
        }
        j += 1;
    }
    out
}

/// What an `n × n` grid holds at point `(i, j)` once `interior` is embedded
/// in it: `zero` on the boundary, interior point `(i - 1, j - 1)` inside.
pub open spec fn embedded_at<T>(interior: Seq<T>, n: int, zero: T, i: int, j: int) -> T {
    if on_boundary(i, j, n) {
        zero
    } else {
        interior[(i - 1) + (n - 2) * (j - 1)]
    }
}

/// The `n × n` grid whose interior is `interior` (column-major,
/// `(n - 2) × (n - 2)`) and whose boundary holds `zero`.
pub fn embed_interior<T: Copy>(interior: &[T], n: usize, zero: T) -> (r: Vec<T>)
    requires
        n >= 2,
        (n - 2) * (n - 2) <= interior@.len(),
        n * n <= usize::MAX,
    ensures
        r@.len() == n * n,
        forall|i: int, j: int|
            0 <= i < n && 0 <= j < n ==> #[trigger] r@[i + n * j] == embedded_at(
                interior@,
                n as int,
                zero,
                i,
                j,
            ),
{
    let m = n - 2;
    proof {
        assert(m * m <= n * n) by (nonlinear_arith)
            requires
                m + 2 == n,
                m >= 0,
        ;
    }
    let mut out: Vec<T> = Vec::new();
    let mut j: usize = 0;
    while j < n
        invariant
            m * m <= usize::MAX,
            m == n - 2,
            n >= 2,
            m * m <= interior@.len(),
            n * n <= usize::MAX,
            j <= n,
            out@.len() == n * j,
            forall|a: int, b: int|
                0 <= a < n && 0 <= b < j ==> #[trigger] out@[a + n * b] == embedded_at(
                    interior@,
                    n as int,
                    zero,
                    a,
                    b,
                ),
        decreases n - j,
    {
        let mut i: usize = 0;
        while i < n
            invariant
                m * m <= usize::MAX,
                m == n - 2,
                n >= 2,
                m * m <= interior@.len(),
                n * n <= usize::MAX,
                j < n,
                i <= n,
                out@.len() == n * j + i,
                forall|a: int, b: int|
                    0 <= a < n && 0 <= b < j ==> #[trigger] out@[a + n * b] == embedded_at(
                        interior@,
                        n as int,
                        zero,
                        a,
                        b,
                    ),
                forall|a: int|
                    0 <= a < i ==> #[trigger] out@[a + n * j] == embedded_at(
                        interior@,
                        n as int,
                        zero,
                        a,
                        j as int,
                    ),
            decreases n - i,
        {
            proof {
                lemma_point_in_grid(i as int, j as int, n as int);
            }
            let ghost before = out@;
            if i == 0 || j == 0 || i == n - 1 || j == n - 1 {
                out.push(zero);
            } else {
                proof {
                    lemma_point_in_grid(i - 1, j - 1, m as int);
                }
                out.push(interior[idx(i - 1, j - 1, m)]);
            }
            proof {
                assert forall|a: int, b: int| 0 <= a < n && 0 <= b < j implies #[trigger] out@[a + n * b]
                    == embedded_at(interior@, n as int, zero, a, b) by {
                    assert(a + n * b < n * j) by (nonlinear_arith)
                        requires
                            0 <= a < n,
                            0 <= b < j,
                    ;
                    assert(out@[a + n * b] == before[a + n * b]);
                }
                assert forall|a: int| 0 <= a < i + 1 implies #[trigger] out@[a + n * j] == embedded_at(
                    interior@,
                    n as int,
                    zero,
                    a,
                    j as int,
                ) by {
                    if a < i {
                        assert(out@[a + n * j] == before[a + n * j]);
                    }
                }
            }
            i += 1;
        }
        proof {
            assert(n * j + n == n * (j + 1)) by (nonlinear_arith);
            assert forall|a: int, b: int| 0 <= a < n && 0 <= b < j + 1 implies #[trigger] out@[a + n * b]
                == embedded_at(interior@, n as int, zero, a, b) by {
                if b == j {
                    assert(out@[a + n * j] == embedded_at(interior@, n as int, zero, a, j as int));
                }
            }
        }
        j += 1;
    }
    out
}

/// Embedding an interior into a grid and taking the interior back gives the
/// interior unchanged.
pub proof fn lemma_interior_round_trip<T>(interior: Seq<T>, n: int, zero: T, grid: Seq<T>, back: Seq<T>)
    requires
        n >= 2,
        interior.len() == (n - 2) * (n - 2),
        grid.len() == n * n,
        forall|i: int, j: int|
            0 <= i < n && 0 <= j < n ==> #[trigger] grid[i + n * j] == embedded_at(
                interior,
                n,
                zero,
                i,
                j,
            ),
        back.len() == (n - 2) * (n - 2),
        forall|i: int, j: int|
            0 <= i < n - 2 && 0 <= j < n - 2 ==> #[trigger] back[i + (n - 2) * j] == grid[(i + 1) + n
                * (j + 1)],
    ensures
        back == interior,
{
    let m = n - 2;
    assert forall|p: int| 0 <= p < back.len() implies back[p] == interior[p] by {
        let i = p % m;
        let j = p / m;
        vstd::arithmetic::div_mod::lemma_fundamental_div_mod(p, m);
        vstd::arithmetic::div_mod::lemma_mod_bound(p, m);
        assert(0 <= j < m) by (nonlinear_arith)
            requires
                p == m * j + i,
                0 <= i < m,
                0 <= p < m * m,
        ;
        assert(p == i + m * j);
        assert(back[i + m * j] == grid[(i + 1) + n * (j + 1)]);
        assert(0 <= i + 1 < n && 0 <= j + 1 < n);
        assert(grid[(i + 1) + n * (j + 1)] == embedded_at(interior, n, zero, i + 1, j + 1));
    }
    assert(back =~= interior);
}

/// Entry `p` of the odd extension of length `2 (m + 1)` of `column`
/// (`m` values) may be `value`: zero at `0` and `m + 1`, `column[p - 1]` for
/// `1 <= p <= m`, and a negation of `column[2 m + 1 - p]` above `m + 1`.
pub open spec fn extended_entry<T, F: Fn(T) -> T>(
    negate: F,
    zero: T,
    m: int,
    p: int,
    column: Seq<T>,
    value: T,
) -> bool {
    if p == 0 || p == m + 1 {
        value == zero
    } else if p <= m {
        value == column[p - 1]
    } else {
        call_ensures(negate, (column[2 * m + 1 - p],), value)
    }
}

/// An extension made entry by entry as `extended_entry` says is the odd
/// extension of `column`: zero at `0` and `m + 1`, `column` on `1 ..= m`,
/// and antisymmetric about `m + 1`: entry `2 (m + 1) − p` is a negation of
/// entry `p`.
pub proof fn lemma_extension_is_odd<T, F: Fn(T) -> T>(
    negate: F,
    zero: T,
    m: int,
    column: Seq<T>,
    ext: Seq<T>,
)
    requires
        0 <= m,
        column.len() == m,
        ext.len() == 2 * (m + 1),
        forall|p: int| 0 <= p < ext.len() ==> extended_entry(negate, zero, m, p, column, #[trigger] ext[p]),
    ensures
        ext[0] == zero,
        ext[m + 1] == zero,
        forall|p: int|
            1 <= p <= m ==> #[trigger] ext[p] == column[p - 1] && call_ensures(
                negate,
                (ext[p],),
                ext[2 * (m + 1) - p],
            ),
{
    assert(extended_entry(negate, zero, m, 0, column, ext[0]));
    assert(extended_entry(negate, zero, m, m + 1, column, ext[m + 1]));
    assert forall|p: int| 1 <= p <= m implies #[trigger] ext[p] == column[p - 1] && call_ensures(
        negate,
        (ext[p],),
        ext[2 * (m + 1) - p],
    ) by {
        assert(extended_entry(negate, zero, m, p, column, ext[p]));
        assert(extended_entry(negate, zero, m, 2 * (m + 1) - p, column, ext[2 * (m + 1) - p]));
    }
}

proof fn lemma_nonneg_product(a: int, b: int)
    requires
        0 <= a,
        0 <= b,
    ensures
        0 <= a * b,
{
    assert(0 <= a * b) by (nonlinear_arith)
        requires
            0 <= a,
            0 <= b,
    ;
}

/// Odd extension of length `2 (m + 1)` of each of the `ncols` contiguous
/// columns of `x` (`m` values each), along the fast axis:
/// `s[0] = 0`, `s[1..=m] = x`, `s[m + 1] = 0`, `s[m + 2..] = -reverse(x)`.
/// Also returns the extended length.
pub fn odd_extend_axis0<T: Copy, F: Fn(T) -> T>(
    x: &[T],
    m: usize,
    ncols: usize,
    zero: T,
    negate: F,
) -> (r: (Vec<T>, usize))
    requires
        m * ncols <= x@.len(),
        2 * (m + 1) <= usize::MAX,
        2 * (m + 1) * ncols <= usize::MAX,
        forall|t: T| call_requires(negate, (t,)),
    ensures
        r.1 == 2 * (m + 1),
        r.0@.len() == r.1 * ncols,
        forall|p: int, j: int|
            0 <= p < r.1 && 0 <= j < ncols ==> extended_entry(
                negate,
                zero,
                m as int,
                p,
                x@.subrange(m * j, m * j + m),
                #[trigger] r.0@[p + r.1 * j],
            ),
        forall|j: int|
            0 <= j < ncols ==> #[trigger] r.0@[r.1 * j] == zero && r.0@[(m + 1) + r.1 * j] == zero,
        forall|p: int, j: int|
            1 <= p <= m && 0 <= j < ncols ==> #[trigger] r.0@[p + r.1 * j] == x@[m * j + (p - 1)]
                && call_ensures(negate, (r.0@[p + r.1 * j],), r.0@[(r.1 - p) + r.1 * j]),
{
    let xlen = x.len();
    let l = m + 1;
    let nfft = 2 * l;
    let mut out: Vec<T> = Vec::new();
    let mut j: usize = 0;
    while j < ncols
        invariant
            xlen == x@.len(),
            l == m + 1,
            nfft == 2 * l,
            m * ncols <= x@.len(),
            nfft * ncols <= usize::MAX,
            forall|t: T| call_requires(negate, (t,)),
            j <= ncols,
            out@.len() == nfft * j,
            forall|p: int, b: int|
                0 <= p < nfft && 0 <= b < j ==> extended_entry(
                    negate,
                    zero,
                    m as int,
                    p,
                    x@.subrange(m * b, m * b + m),
                    #[trigger] out@[p + nfft * b],
                ),
        decreases ncols - j,
    {
        proof {
            assert(m * j + m <= m * ncols) by (nonlinear_arith)
                requires
                    j < ncols,
            ;
            lemma_nonneg_product(m as int, j as int);
            assert(nfft * j + nfft <= nfft * ncols) by (nonlinear_arith)
                requires
                    j < ncols,
            ;
        }
        let base = m * j;
        let mut p: usize = 0;
        while p < nfft
            invariant
                xlen == x@.len(),
                l == m + 1,
                nfft == 2 * l,
                base == m * j,
                base + m <= x@.len(),
                nfft * j + nfft <= usize::MAX,
                forall|t: T| call_requires(negate, (t,)),
                j < ncols,
                p <= nfft,
                out@.len() == nfft * j + p,
                forall|a: int, b: int|
                    0 <= a < nfft && 0 <= b < j ==> extended_entry(
                        negate,
                        zero,
                        m as int,
                        a,
                        x@.subrange(m * b, m * b + m),
                        #[trigger] out@[a + nfft * b],
                    ),
                forall|a: int|
                    0 <= a < p ==> extended_entry(
                        negate,
                        zero,
                        m as int,
                        a,
                        x@.subrange(m * j, m * j + m),
                        #[trigger] out@[a + nfft * j],
                    ),
            decreases nfft - p,
        {
            let value = if p == 0 || p == l {
                zero
            } else if p <= m {
                x[base + p - 1]
            } else {
                negate(x[base + (2 * m + 1 - p)])
            };
            let ghost before = out@;
            out.push(value);
            proof {
                assert forall|a: int, b: int| 0 <= a < nfft && 0 <= b < j implies extended_entry(
                    negate,
                    zero,
                    m as int,
                    a,
                    x@.subrange(m * b, m * b + m),
                    #[trigger] out@[a + nfft * b],
                ) by {
                    assert(a + nfft * b < nfft * j) by (nonlinear_arith)
                        requires
                            0 <= a < nfft,
                            0 <= b < j,
                    ;
                    assert(out@[a + nfft * b] == before[a + nfft * b]);
                }
                assert forall|a: int| 0 <= a < p + 1 implies extended_entry(
                    negate,
                    zero,
                    m as int,
                    a,
                    x@.subrange(m * j, m * j + m),
                    #[trigger] out@[a + nfft * j],
                ) by {
                    if a < p {
                        assert(out@[a + nfft * j] == before[a + nfft * j]);
                    }
                }
            }
            p += 1;
        }
        proof {
            assert(nfft * j + nfft == nfft * (j + 1)) by (nonlinear_arith);
            assert forall|a: int, b: int| 0 <= a < nfft && 0 <= b < j + 1 implies extended_entry(
                negate,
                zero,
                m as int,
                a,
                x@.subrange(m * b, m * b + m),
                #[trigger] out@[a + nfft * b],
            ) by {
                if b == j {
                    assert(extended_entry(
                        negate,
                        zero,
                        m as int,
                        a,
                        x@.subrange(m * j, m * j + m),
                        out@[a + nfft * j],
                    ));
                }
            }
        }
        j += 1;
    }
    proof {
        assert forall|j: int| 0 <= j < ncols implies #[trigger] out@[nfft * j] == zero && out@[(m + 1)
            + nfft * j] == zero by {
            assert(extended_entry(negate, zero, m as int, 0, x@.subrange(m * j, m * j + m), out@[0 + nfft * j]));
            assert(extended_entry(negate, zero, m as int, m + 1, x@.subrange(m * j, m * j + m), out@[(m + 1) + nfft * j]));
        }
        assert forall|p: int, j: int| 1 <= p <= m && 0 <= j < ncols implies #[trigger] out@[p + nfft
            * j] == x@[m * j + (p - 1)] && call_ensures(
            negate,
            (out@[p + nfft * j],),
            out@[(nfft - p) + nfft * j],
        ) by {
            let column = x@.subrange(m * j, m * j + m);
            lemma_point_in_grid_rect(p - 1, j, m as int, ncols as int);
            assert(m * j + m <= m * ncols) by (nonlinear_arith)
                requires
                    0 <= j < ncols,
                    m >= 0,
            ;
            assert(extended_entry(negate, zero, m as int, p, column, out@[p + nfft * j]));
            assert(extended_entry(negate, zero, m as int, nfft - p, column, out@[(nfft - p) + nfft * j]));
            assert(column[p - 1] == x@[m * j + (p - 1)]);
        }
    }
    (out, nfft)
}

/// Row `i` of an `nrows`-row column-major buffer with `m` columns.
pub open spec fn strided_row<T>(x: Seq<T>, nrows: int, m: int, i: int) -> Seq<T> {
    Seq::new(m as nat, |k: int| x[i + nrows * k])
}

/// Odd extension of length `2 (m + 1)` of each of the `nrows` rows of the
/// column-major `nrows × m` buffer `x`, along the slow axis. Also returns
/// the extended length.
pub fn odd_extend_axis1<T: Copy, F: Fn(T) -> T>(
    x: &[T],
    nrows: usize,
    m: usize,
    zero: T,
    negate: F,
) -> (r: (Vec<T>, usize))
    requires
        nrows * m <= x@.len(),
        2 * (m + 1) <= usize::MAX,
        nrows * (2 * (m + 1)) <= usize::MAX,
        forall|t: T| call_requires(negate, (t,)),
    ensures
        r.1 == 2 * (m + 1),
        r.0@.len() == nrows * r.1,
        forall|i: int, q: int|
            0 <= i < nrows && 0 <= q < r.1 ==> extended_entry(
                negate,
                zero,
                m as int,
                q,
                strided_row(x@, nrows as int, m as int, i),
                #[trigger] r.0@[i + nrows * q],
            ),
        forall|i: int|
            0 <= i < nrows ==> #[trigger] r.0@[i + nrows * 0] == zero && r.0@[i + nrows * (m + 1)]
                == zero,
        forall|i: int, q: int|
            0 <= i < nrows && 1 <= q <= m ==> #[trigger] r.0@[i + nrows * q] == x@[i + nrows * (q
                - 1)] && call_ensures(negate, (r.0@[i + nrows * q],), r.0@[i + nrows * (r.1 - q)]),
{
    let xlen = x.len();
    let l = m + 1;
    let nfft = 2 * l;
    let mut out: Vec<T> = Vec::new();
    let mut q: usize = 0;
    while q < nfft
        invariant
            xlen == x@.len(),
            l == m + 1,
            nfft == 2 * l,
            nrows * m <= xlen,
            nrows * nfft <= usize::MAX,
            forall|t: T| call_requires(negate, (t,)),
            q <= nfft,
            out@.len() == nrows * q,
            forall|a: int, b: int|
                0 <= a < nrows && 0 <= b < q ==> extended_entry(
                    negate,
                    zero,
                    m as int,
                    b,
                    strided_row(x@, nrows as int, m as int, a),
                    #[trigger] out@[a + nrows * b],
                ),
        decreases nfft - q,
    {
        proof {
            assert(nrows * q + nrows <= nrows * nfft) by (nonlinear_arith)
                requires
                    q < nfft,
            ;
        }
        let mut i: usize = 0;
        while i < nrows
            invariant
                xlen == x@.len(),
                l == m + 1,
                nfft == 2 * l,
                nrows * m <= xlen,
                nrows * q + nrows <= usize::MAX,
                forall|t: T| call_requires(negate, (t,)),
                q < nfft,
                i <= nrows,
                out@.len() == nrows * q + i,
                forall|a: int, b: int|
                    0 <= a < nrows && 0 <= b < q ==> extended_entry(
                        negate,
                        zero,
                        m as int,
                        b,
                        strided_row(x@, nrows as int, m as int, a),
                        #[trigger] out@[a + nrows * b],
                    ),
                forall|a: int|
                    0 <= a < i ==> extended_entry(
                        negate,
                        zero,
                        m as int,
                        q as int,
                        strided_row(x@, nrows as int, m as int, a),
                        #[trigger] out@[a + nrows * q],
                    ),
            decreases nrows - i,
        {
            let value = if q == 0 || q == l {
                zero
            } else if q <= m {
                proof {
                    lemma_point_in_grid_rect(i as int, q - 1, nrows as int, m as int);
                }
                x[i + nrows * (q - 1)]
            } else {
                proof {
                    lemma_point_in_grid_rect(i as int, 2 * m + 1 - q, nrows as int, m as int);
                }
                negate(x[i + nrows * (2 * m + 1 - q)])
            };
            let ghost before = out@;
            out.push(value);
            proof {
                assert forall|a: int, b: int| 0 <= a < nrows && 0 <= b < q implies extended_entry(
                    negate,
                    zero,
                    m as int,
                    b,
                    strided_row(x@, nrows as int, m as int, a),
                    #[trigger] out@[a + nrows * b],
                ) by {
                    assert(a + nrows * b < nrows * q) by (nonlinear_arith)
                        requires
                            0 <= a < nrows,
                            0 <= b < q,
                    ;
                    assert(out@[a + nrows * b] == before[a + nrows * b]);
                }
                assert forall|a: int| 0 <= a < i + 1 implies extended_entry(
                    negate,
                    zero,
                    m as int,
                    q as int,
                    strided_row(x@, nrows as int, m as int, a),
                    #[trigger] out@[a + nrows * q],
                ) by {
                    if a < i {
                        assert(out@[a + nrows * q] == before[a + nrows * q]);
                    }
                }
            }
            i += 1;
        }
        proof {
            assert(nrows * q + nrows == nrows * (q + 1)) by (nonlinear_arith);
            assert forall|a: int, b: int| 0 <= a < nrows && 0 <= b < q + 1 implies extended_entry(
                negate,
                zero,
                m as int,
                b,
                strided_row(x@, nrows as int, m as int, a),
                #[trigger] out@[a + nrows * b],
            ) by {
                if b == q {
                    assert(extended_entry(
                        negate,
                        zero,
                        m as int,
                        q as int,
                        strided_row(x@, nrows as int, m as int, a),
                        out@[a + nrows * q],
                    ));
                }
            }
        }
        q += 1;
    }
    proof {
        assert forall|i: int| 0 <= i < nrows implies #[trigger] out@[i + nrows * 0] == zero && out@[i
            + nrows * (m + 1)] == zero by {
            assert(extended_entry(negate, zero, m as int, 0, strided_row(x@, nrows as int, m as int, i), out@[i + nrows * 0]));
            assert(extended_entry(negate, zero, m as int, m + 1, strided_row(x@, nrows as int, m as int, i), out@[i + nrows * (m + 1)]));
        }
        assert forall|i: int, q: int| 0 <= i < nrows && 1 <= q <= m implies #[trigger] out@[i + nrows
            * q] == x@[i + nrows * (q - 1)] && call_ensures(
            negate,
            (out@[i + nrows * q],),
            out@[i + nrows * (nfft - q)],
        ) by {
            let row = strided_row(x@, nrows as int, m as int, i);
            assert(extended_entry(negate, zero, m as int, q, row, out@[i + nrows * q]));
            assert(extended_entry(negate, zero, m as int, nfft - q, row, out@[i + nrows * (nfft - q)]));
            assert(row[q - 1] == x@[i + nrows * (q - 1)]);
        }
    }
    (out, nfft)
}

/// Point `(i, j)` of a column-major `rows × cols` buffer lies inside it.
pub proof fn lemma_point_in_grid_rect(i: int, j: int, rows: int, cols: int)
    requires
        0 <= i < rows,
        0 <= j < cols,
    ensures
        0 <= rows * j,
        i + rows * j < rows * cols,
{
    assert(0 <= rows * j) by (nonlinear_arith)
        requires
            0 <= j,
            0 <= rows,
    ;
    assert(rows * j + rows <= rows * cols) by (nonlinear_arith)
        requires
            0 <= j < cols,
            0 <= rows,
    ;
}

/// The sine coefficients of `ncols` fast-axis spectra of length `nfft`:
/// entry `(i, j)` of the result is `extract` applied to entry `(i + 1, j)`
/// of the spectrum, for `i < m`.
pub fn take_dst_axis0<T: Copy, U, F: Fn(T) -> U>(
    spec: &[T],
    nfft: usize,
    ncols: usize,
    m: usize,
    extract: F,
) -> (r: Vec<U>)
    requires
        m == 0 || ncols == 0 || m + nfft * (ncols - 1) < spec@.len(),
        m * ncols <= usize::MAX,
        forall|t: T| call_requires(extract, (t,)),
    ensures
        r@.len() == m * ncols,
        forall|i: int, j: int|
            0 <= i < m && 0 <= j < ncols ==> call_ensures(
                extract,
                (spec@[(i + 1) + nfft * j],),
                #[trigger] r@[i + m * j],
            ),
{
    let slen = spec.len();
    let mut out: Vec<U> = Vec::new();
    let mut j: usize = 0;
    while j < ncols
        invariant
            slen == spec@.len(),
            m == 0 || ncols == 0 || m + nfft * (ncols - 1) < slen,
            m * ncols <= usize::MAX,
            forall|t: T| call_requires(extract, (t,)),
            j <= ncols,
            out@.len() == m * j,
            forall|a: int, b: int|
                0 <= a < m && 0 <= b < j ==> call_ensures(
                    extract,
                    (spec@[(a + 1) + nfft * b],),
                    #[trigger] out@[a + m * b],
                ),
        decreases ncols - j,
    {
        proof {
            assert(m * j + m <= m * ncols) by (nonlinear_arith)
                requires
                    j < ncols,
            ;
        }
        let mut i: usize = 0;
        while i < m
            invariant
                slen == spec@.len(),
                m == 0 || ncols == 0 || m + nfft * (ncols - 1) < slen,
                m * j + m <= usize::MAX,
                forall|t: T| call_requires(extract, (t,)),
                j < ncols,
                i <= m,
                out@.len() == m * j + i,
                forall|a: int, b: int|
                    0 <= a < m && 0 <= b < j ==> call_ensures(
                        extract,
                        (spec@[(a + 1) + nfft * b],),
                        #[trigger] out@[a + m * b],
                    ),
                forall|a: int|
                    0 <= a < i ==> call_ensures(
                        extract,
                        (spec@[(a + 1) + nfft * j],),
                        #[trigger] out@[a + m * j],
                    ),
            decreases m - i,
        {
            proof {
                assert(0 <= nfft * j <= nfft * (ncols - 1)) by (nonlinear_arith)
                    requires
                        0 <= j < ncols,
                        nfft >= 0,
                ;
            }
            let value = extract(spec[(i + 1) + nfft * j]);
            let ghost before = out@;
            out.push(value);
            proof {
                assert forall|a: int, b: int| 0 <= a < m && 0 <= b < j implies call_ensures(
                    extract,
                    (spec@[(a + 1) + nfft * b],),
                    #[trigger] out@[a + m * b],
                ) by {
                    assert(a + m * b < m * j) by (nonlinear_arith)
                        requires
                            0 <= a < m,
                            0 <= b < j,
                    ;
                    assert(out@[a + m * b] == before[a + m * b]);
                }
                assert forall|a: int| 0 <= a < i + 1 implies call_ensures(
                    extract,
                    (spec@[(a + 1) + nfft * j],),
                    #[trigger] out@[a + m * j],
                ) by {
                    if a < i {
                        assert(out@[a + m * j] == before[a + m * j]);
                    }
                }
            }
            i += 1;
        }
        proof {
            assert(m * j + m == m * (j + 1)) by (nonlinear_arith);
        }
        j += 1;
    }
    out
}

/// The sine coefficients of `nrows` slow-axis spectra: entry `(i, j)` of the
/// result is `extract` applied to entry `(i, j + 1)` of the spectrum, for
/// `j < m`. The spectrum length along the slow axis is not needed.
pub fn take_dst_axis1<T: Copy, U, F: Fn(T) -> U>(
    spec: &[T],
    nrows: usize,
    _nfft: usize,
    m: usize,
    extract: F,
) -> (r: Vec<U>)
    requires
        nrows == 0 || m == 0 || nrows * (m + 1) <= spec@.len(),
        forall|t: T| call_requires(extract, (t,)),
    ensures
        r@.len() == nrows * m,
        forall|i: int, j: int|
            0 <= i < nrows && 0 <= j < m ==> call_ensures(
                extract,
                (spec@[i + nrows * (j + 1)],),
                #[trigger] r@[i + nrows * j],
            ),
{
    let slen = spec.len();
    proof {
        assert(nrows * m <= nrows * (m + 1)) by (nonlinear_arith)
            requires
                nrows >= 0,
        ;
        assert(nrows == 0 || m == 0 ==> nrows * m == 0) by (nonlinear_arith);
    }
    let mut out: Vec<U> = Vec::new();
    let mut j: usize = 0;
    while j < m
        invariant
            slen == spec@.len(),
            nrows == 0 || m == 0 || nrows * (m + 1) <= slen,
            nrows * m <= slen,
            forall|t: T| call_requires(extract, (t,)),
            j <= m,
            out@.len() == nrows * j,
            forall|a: int, b: int|
                0 <= a < nrows && 0 <= b < j ==> call_ensures(
                    extract,
                    (spec@[a + nrows * (b + 1)],),
                    #[trigger] out@[a + nrows * b],
                ),
        decreases m - j,
    {
        proof {
            assert(nrows * j + nrows <= nrows * m) by (nonlinear_arith)
                requires
                    j < m,
            ;
        }
        let mut i: usize = 0;
        while i < nrows
            invariant
                slen == spec@.len(),
                nrows * (m + 1) <= slen,
                nrows * j + nrows <= slen,
                forall|t: T| call_requires(extract, (t,)),
                j < m,
                i <= nrows,
                out@.len() == nrows * j + i,
                forall|a: int, b: int|
                    0 <= a < nrows && 0 <= b < j ==> call_ensures(
                        extract,
                        (spec@[a + nrows * (b + 1)],),
                        #[trigger] out@[a + nrows * b],
                    ),
                forall|a: int|
                    0 <= a < i ==> call_ensures(
                        extract,
                        (spec@[a + nrows * (j + 1)],),
                        #[trigger] out@[a + nrows * j],
                    ),
            decreases nrows - i,
        {
            proof {
                lemma_point_in_grid_rect(i as int, j + 1, nrows as int, m + 1);
            }
            let value = extract(spec[i + nrows * (j + 1)]);
            let ghost before = out@;
            out.push(value);
            proof {
                assert forall|a: int, b: int| 0 <= a < nrows && 0 <= b < j implies call_ensures(
                    extract,
                    (spec@[a + nrows * (b + 1)],),
                    #[trigger] out@[a + nrows * b],
                ) by {
                    assert(a + nrows * b < nrows * j) by (nonlinear_arith)
                        requires
                            0 <= a < nrows,
                            0 <= b < j,
                    ;
                    assert(out@[a + nrows * b] == before[a + nrows * b]);
                }
                assert forall|a: int| 0 <= a < i + 1 implies call_ensures(
                    extract,
                    (spec@[a + nrows * (j + 1)],),
                    #[trigger] out@[a + nrows * j],
                ) by {
                    if a < i {
                        assert(out@[a + nrows * j] == before[a + nrows * j]);
                    }
                }
            }
            i += 1;
        }
        proof {
            assert(nrows * j + nrows == nrows * (j + 1)) by (nonlinear_arith);
        }
        j += 1;
    }
    out
}

} // verus!
