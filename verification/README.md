# featrs

Feature engineering on tables: encoders for categories and dates, text
vectorizers, discretization, interaction and time-series features, and feature
selection.

`src/` is the library. It is written in Verus: every function states what it
returns, and the statements are proved. Four functions are taken at their word,
because they call other crates: `cast_to_days` in `holiday_encoder`, and
`to_lower_case`, `check_pattern` and `find_matches` in `words`.

- `frame` holds the tables that go in (`Frame`) and come out (`Sheet`).
- `double` orders and compares double-precision numbers by their bits.
- `program` lists floating-point operations. A transformer does not compute
  real numbers itself: it says what is to be computed, as a list of operations,
  and its contract says which number each operation stands for. Where a decision
  depends on a computed number, a fit has steps: it hands out a `Query`, and
  goes on when it is given the answers.
- `error` names every reason for which an input is refused.
- `preprocessing`, `time_series` and `feature_selection` hold the transformers.
- `text`, `tally`, `count`, `order`, `doubles`, `reals`, `draft` and `util` are
  what they share.

Properties that relate several functions are stated and proved in the functions
whose names begin with `law_`.

`app/` puts the transformers on the data frames of polars: it converts frames,
evaluates the operations, and has polars compare columns of types that the
library does not hold.

`tests/` runs the transformers on data frames, and the library on its own.
