# precise_numpy

Interval arrays with guaranteed error bounds: every element is a
`(midpoint, radius)` pair that encloses the true value.

The crate is split in two.

- `src/` is the verified library (Verus). It holds everything about an
  array that is not floating-point arithmetic: shape sizes and row-major
  strides, NumPy broadcasting, index expressions (integers, slices, lists,
  boolean masks, `...`, new axes) and the positions they read, reshape,
  transpose, `eye`/`diag` layouts, the lane layout of axis reductions,
  sub-ranges, split, concatenate and stack layouts, `nonzero`, the shape
  rules of `dot`/`matmul`, boolean masks, and the xoshiro256** generator
  with its integer draws. Each public function has a contract over
  mathematical models, and the laws (broadcast commutativity, ravel and
  unravel being inverse, transpose being an involution, concatenation being
  one-to-one and undoing a split, reductions visiting each element once,
  ...) are proof functions.
- `app/` is the Python extension (pyo3). It decodes Python arguments, holds
  the `f64` midpoint and radius data and runs the floating-point kernels
  (outward-rounded interval arithmetic, elementary functions, reductions,
  `dgemm`-based products, linear algebra), asking the library where each
  value goes.

`tests/` exercises the library from outside.
