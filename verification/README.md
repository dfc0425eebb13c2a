# regressor

A regression toolkit in two parts.

- `src/` is the verified library: the error type and its messages, the
  design-matrix helpers (intercept column, intercept split), the input size
  checks of models and metrics, the agreement count behind a classifier's
  accuracy, and the `LabelEncoder`, whose class list is proved to be the
  sorted distinct labels and whose codes are proved to decode back to the
  labels they encode.
- `app/` holds the floating-point side on `ndarray` / `ndarray-linalg`
  (least squares, ridge, logistic regression by gradient descent, R²/MSE/RMSE,
  scalers), JSON persistence through serde, and the PyO3 module `regressor`.
