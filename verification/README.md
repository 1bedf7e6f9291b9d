# poisson

Verified index arithmetic and sparse assembly behind several solvers of the
Poisson equation `-Δu = f` on the unit square with homogeneous Dirichlet
boundary conditions.

`src/` is a Verus library:

- `layout` — column-major shape products and linear offsets, with the offset
  proved to be a bijection between in-bounds indices and buffer positions.
  A shape is accepted when the product of its extents fits in `usize`.
- `col_major` — shared and exclusive column-major views of rank `N`,
  validated once at construction, with element access and first-axis lanes.
- `sparse` — canonical CSR patterns and their validation, CSR tensors with
  one value per stored entry, the row-by-row CSR product, and vector shape
  checks.
- `coo` — the COO triplet builder and COO import, assembling canonical CSR;
  repeated coordinates are combined in push order by a caller-supplied
  function, and the stored pattern depends only on the pushed coordinates.
  Importing a COO tensor is proved to give what pushing its pairs into a
  builder gives.
- `stencil` — the five-point stencil of `-Δ` as triplets, proved symmetric and
  free of repeated coordinates and storing `5m² − 4m` entries on an `m × m`
  grid, and the matrix-free operator, proved to read exactly the columns of
  the assembled row.
- `grid` — grid point numbering, interior extraction and embedding, and the
  odd extensions and coefficient extraction of the discrete sine transform.
- `jacobi` — the sweep schedule of the pipelined Jacobi driver, and the row
  order of a pipelined pair of sweeps, proved to give two plain sweeps for
  any kernel that reads only the rows around the one it writes.

`app/` holds the floating-point solvers (Jacobi on ndarray, on vectors and
with SIMD kernels, DST through FFT, conjugate gradients on CSR and
matrix-free operators) and the plots; they use the library for all indexing
and assembly. `tests/` exercises the library.
