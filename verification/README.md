# fraud_knn

Fraud detection for card transactions by exact nearest-neighbour search, verified with Verus.

A payload is turned into fourteen dimensions of the unit interval, quantized to sixteen signed
bytes and compared with every reference vector. The five nearest vectors vote: the fraud score is
the share of them that is labelled as fraud, and a transaction is approved while the score is below
three fifths. A dataset of fewer than five vectors lets those vote that it has.

## Layout

- `src/` is the library. Every function carries a contract, and `law_*` proof functions state what
  holds across functions.
  - `rounding`, `single`: single-precision numbers as bit patterns, with correctly rounded
    arithmetic.
  - `datetime`: timestamps, day numbers and weekdays.
  - `vectorize`, `quantize`: from payload to stored form.
  - `search`: the five best neighbours, two scans, the fraud score.
  - `format`: the references artifact (`RINHA26\x01`, a 64-bit count, sixteen bytes per vector) and
    the labels artifact (one bit per vector).
  - `dataset`: building the artifacts from labelled vectors.
  - `state`: validating and loading them.
  - `routes`, `error`: what the endpoints answer.
  - `text`: numbers, byte lists and quoted strings in error messages. Its one unproved item is the
    quoting of a string by std's `Debug`.
- `tests/` runs the library on concrete values, single-precision arithmetic against the hardware's
  among them.
- `app/` is the program around it: the HTTP service (`GET /ready`, `POST /fraud-score`), memory
  mapping, JSON, and the `build-dataset` command.

## What is proved

- The scans return the five vectors that come first by squared distance, then by index; the batched
  kernel and the plain scan agree on quantized data.
- A dataset that was built passes validation, its rows are the quantized vectors, and its label
  bits are the labels.
- Every dimension of a vector lies in the unit interval, except that dimensions 5 and 6 are NaN
  exactly when there is no last transaction; only those become the sentinel.
- Quantizing keeps order, distorts no distance by more than four hundredths and a rounding error,
  and reading a quantized vector back and quantizing it again changes
  nothing.
- Day numbers count calendar days, and weekdays follow them.
