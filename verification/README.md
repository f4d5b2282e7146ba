# market_lab

The decision core of a paper-trading research lab, written and proved in Verus. The lab captures
spot market data of Binance and Bybit, runs six strategies on four horizons side by side, opens
paper positions, follows them quote by quote to their exit, and reports forward results after
costs. It places no orders.

## Layout

- `src/` is the library. Its functions have contracts that Verus proves, except for the few
  named below that call outside code.
  - `num`: binary64 numbers by their bit patterns, with correctly rounded operations.
  - `text`, `json`: texts; JSON values of the `serde_json` crate and what they hold.
  - `model`: what the lab records.
  - `capture`: what the messages of the exchanges say, and how a capture stands.
  - `db`: queries, migrations and the batching of events.
  - `analysis`: closed five-second windows, features, historical analogs, signals, entries and
    the life of positions.
  - `audit`, `paper`, `export`: evidence of executions, costs and statistics, diagnostics.
  - `api`: how requests are judged.
- `tests/` runs the library, in part against the floating point of the machine.
- `app/` is the service around the library: sockets, SQLite, HTTP, and the two things that are
  left to the machine's floating point, natural logarithms and texts with rounded decimals.

## What is trusted

The wrappers in `json.rs` (`serde_json`), `now_ms` and the calendar test (`chrono`), `random_id`
(`uuid`) and `String::push`. Their doc comments say what is claimed of the outside code; of the
clock and of random identifiers that is nothing.

## Laws

Beside the contracts stand public proof functions, named `lemma_..`, for what holds of several
functions together: a position keeps its entry and its status tells what happened, pages of
quotes give what all quotes give at once, nothing of the future changes a signal, no trade is
forced, analogs do not overlap, fees and slippage never help, nothing is earned on one and the
same quote, events that are neither trades nor quotes do not matter, a small change of a
configuration changes its identifier, statistics and groups lose no position, no market event is
lost between a failed write and its retry, migrations only add, and no exported cell becomes a
formula.
