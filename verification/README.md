# boostlss

Boosting for distributional regression (GAMLSS): every parameter of a
response distribution gets its own additive predictor, fitted by gradient
boosting with base-learners.

- `src/` is the verified library. It holds the discrete logic of the
  method: design-matrix layouts (dense, CSR, CSC) and their data checks,
  group-effect designs, difference and tensor-product penalties, the
  configuration types and learner settings, the bin counts and row
  partitions of histogram trees, the early-stopping rule, the
  resampling schemes and the tuning grid of cross-validation, the
  stability-selection bookkeeping, and the name tables. Every function
  carries a contract proved by Verus; the laws of the library are public
  proof functions whose names start with `law_`.
- `tests/` runs the library on concrete values.
- `app/` is the floating-point side built on the library: distribution
  families, base-learner fits, the boosting loops, cross-validated risk,
  stability selection and model storage.
