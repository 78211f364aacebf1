# swiss_cheese

A verified core for generating missing values in tabular data, with a Python
extension around it.

- `src/` is the library, verified with Verus. It works on a `MissingMask`, a
  grid that records which cells of a table are missing, and on integer rank
  keys, so the floating-point table never enters the verified code. It holds
  the selection strategies (by rank, rectangular blocks, blobs, paired
  columns), the choice of a kept cell in every row, mode parsing and its
  messages, and the label encoding of text columns with its reverse maps.
  Random choices go through the `rand` crate behind small trusted wrappers in
  `src/random.rs`.
- `app/` is the Python extension (`pyo3`, `numpy`, `ndarray`): conversion of
  NumPy arrays and pandas DataFrames, the Gaussian sampling and correlations,
  warnings, and the loops that draw floating-point samples each round.
- `tests/` runs the library on concrete tables.
