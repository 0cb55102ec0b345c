# kalshi_mm

A market maker for Kalshi's prediction markets. The library holds everything
that is decided and computed, with contracts proved by Verus; the program around
it reads, sends, sleeps and logs.

## Layout

| Where | What |
|---|---|
| `src/num.rs`, `src/text.rs`, `src/table.rs` | rounding and decimal numbers, text, tables keyed by name |
| `src/json.rs`, `src/toml_tree.rs` | JSON and TOML documents as plain data |
| `src/book.rs` | the order book, passive quotes, fees, mid samples, trade prints |
| `src/state.rs` | markets and account: fills, settlements, profit, streaks |
| `src/features.rs`, `src/model.rs` | the observation of a policy, and what its output means |
| `src/engine.rs` | quote plans, exits, the account's limits |
| `src/ladder.rs`, `src/spot.rs` | strike ladders and the spot price |
| `src/config.rs`, `src/startup.rs` | configuration, environment file, names |
| `src/api.rs`, `src/transport.rs` | requests and their signatures, replies, socket messages |
| `src/executor.rs`, `src/paper.rs` | from plans to orders, and orders on paper |
| `src/replies.rs`, `src/sweeps.rs` | what the exchange's lists say, page by page |
| `src/trader.rs`, `src/upkeep.rs`, `src/spotwatch.rs`, `src/universe.rs` | the trader's steps |
| `app/` | the program: HTTP, sockets, ONNX policies, timers |

## Units

Prices, money, rates and returns are integers in billionths; order prices are
tenths of a cent; times are microseconds. Sums that could leave their range stop
at its end.
