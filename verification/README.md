# metal_operators

Machine-learning operators for Apple GPUs: k-means, nearest neighbours, DBSCAN, PCA, LDA, linear
and logistic regression, lasso, Gaussian naive Bayes, Gaussian mixtures, NMF, t-SNE and support
vector machines.

## Layout

- `src/` is the library, verified with Verus. It decides and plans: which inputs are refused and
  why, which kernel runs, what each launch binds and how large its grid is, how often a loop goes
  round, which rows, labels, neighbours and coefficients are kept. A number is held by the bits of
  its single-precision pattern (`float`), so that it can be moved and compared; arithmetic on
  such numbers is left to the device and the host.
- `app/` carries the plans out: it holds the Metal device, runs the kernels, does the arithmetic
  of the host and offers the Python bindings. `app/main.rs` shows the operators on synthetic data.
  The shader sources are read from the directory `shaders` at run time.
- `tests/` runs the operators with the kernels written as plain loops on the host, and the parts
  of the library on given values.

## How a model is fitted

`fit` checks its inputs and gives the buffers and launches of the first pass as plain values
(`metal::Launch`); the caller runs them and hands back what the device found. Iterations are
small machines (`kmeans::Iterations`, `logistic_regression::Search`, `svm::Smo`,
`gmm::Expectation`, ...) that are asked for the next step and told its outcome. `finish` keeps
the result.

A seed fixes every draw: the numbers come from `fastrand`, whose draws the library names without
saying what they are (`rng`).
