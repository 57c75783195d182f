# leto_ops

Sparse storage, ordering and dense-array kernels with machine-checked
contracts, written in Verus.

- `src/domain`: the scalar contract (`Scalar`, implemented for every
  primitive integer type from `i8`/`u8` to `i64`/`u64`, `isize` and `usize`), the scalar reference kernels behind its slice hooks (sums, dots,
  strided matrix–vector products, blocked GEMM, row updates), the error type,
  the `xorshift64*` generator, the execution-strategy markers and the
  bit-preserving transposition of row-major matrices (`layout`).
- `src/application/sparse`: COO assembly, CSR and CSC storage, compression,
  transposition, dense conversion, sparse products (SpMV, SpMM, SpGEMM),
  minimum-degree ordering and the symbolic LU pattern; `conversions` proves
  how they fit together (transposition round trips, CSC from CSR agreeing
  with direct compression, entry counts).
- `src/application/{tensor, reduction, scan, vector, unary, zip, coordinate}`:
  dense row-major arrays, keep-dim axis reductions, prefix/suffix scans, dot,
  Hamming and matrix–vector products, elementwise maps, in-place zips and
  folds, and visits of listed coordinates (direct or through a plan).
- `src/application/stateful_update`: the shape checks an optimiser update
  makes before it changes anything.
- `src/application/{window, pooling, sliding_window}`: sliding-window
  geometry, maximum and average pooling with their gradients, unfold and fold.
- `src/infrastructure`: cache geometry and the matmul tile policy (the
  platform topology comes from `themis-topology`), elementwise slice kernels.
- `app/`: ordinary Rust around the library — the process-wide cached geometry
  and the floating-point kernels (quadrature, statistics, special functions,
  signal windows, CG and GMRES, the numeric LU phase, Anderson acceleration,
  L-BFGS, optimiser updates over the verified zips, named element operations).

Every public function in `src/` states its result in `ensures` over a
mathematical view of its arguments.
