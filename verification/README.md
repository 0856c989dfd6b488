# astralane

Ingests a range of Solana blocks into SQLite, estimates how much account-lock
contention each block has, infers token trades against wrapped SOL, builds
OHLCV candles from them, and serves the results over HTTP.

The library (`src/`) is verified with Verus:

- `contention` — greedy list scheduling of a block's transactions by their
  account locks, and the conflict events it records; `schedule_laws` states
  and proves what every schedule satisfies (no conflicts inside a step, each
  transaction placed once, in the earliest step it fits).
- `range_report` — conflict counts per account and per program over many
  blocks, ranked by total.
- `block_rows` — rebuilding a block's transactions and locks from stored rows.
- `ohlcv` — trade inference from one transaction's token balance rows, and
  grouping trades into candle buckets.
- `json`, `pipeline::parser` — a JSON value type and the extraction of blocks,
  transactions, locks and token balances from `getBlock` replies.
- `rpc` — classifying RPC replies and HTTP statuses, the retry decision and
  the backoff delay.
- `api`, `text` — the small decisions the HTTP API makes, and text ordering.

`app/` holds the program around it: the SQLite store, the HTTP client, the
async ingestion pipeline, the axum server, the floating-point price and
candle arithmetic, and the offline tools (`backfill-order`, `build-candles`,
`build-contention-summary`, `contention-report`, `profile-contention`,
`starvation-experiment`), chosen by the first command-line argument.

The ingestion run needs `RPC_URL`; `START_SLOT`, `END_SLOT`, `DB_PATH`,
`SKIP_INGESTION`, `MONITOR_CHANNELS`, `PAUSE_AFTER_BLOCKS` and `PAUSE_SECS`
adjust it.
