use astralane::ohlcv::{
    bucket_start, group_candles, parse_i128, raw_delta, trade_from_group, trades_from_rows,
    BalanceRow, CandleGroup, TradeError, TradeKey, TradeMatch, DUST_THRESHOLD_LAMPORTS, WSOL_MINT,
};

fn row(
    sig: &str,
    mint: &str,
    pre: &str,
    post: &str,
    decimals: i64,
    slot: i64,
    tx_index: i64,
    block_time: i64,
) -> BalanceRow {
    BalanceRow {
        signature: sig.to_string(),
        mint: mint.to_string(),
        pre_amount: pre.to_string(),
        post_amount: post.to_string(),
        decimals,
        slot,
        tx_index,
        block_time,
    }
}

/// Price in SOL per token and volume in tokens, as the candle builder
/// derives them from a matched trade.
fn price_and_volume(t: &TradeMatch) -> (f64, f64) {
    let base_amount = t.base_delta.unsigned_abs() as f64 / 10f64.powi(t.base_decimals as i32);
    let sol_amount = t.wsol_delta.unsigned_abs() as f64 / 1e9;
    (sol_amount / base_amount, base_amount)
}

fn trades_of(rows: &Vec<BalanceRow>) -> Vec<TradeMatch> {
    match trades_from_rows(rows) {
        Ok(v) => v,
        Err(_) => panic!("arithmetic overflow in trade inference"),
    }
}

#[test]
fn simple_swap_produces_one_trade() {
    // user receives 100 TOKEN (6 decimals), pays 1 SOL (9 decimals)
    let rows = vec![
        row("s1", "TOKEN", "0", "100000000", 6, 1, 0, 1000),
        row("s1", WSOL_MINT, "2000000000", "1000000000", 9, 1, 0, 1000),
    ];
    let trades = trades_of(&rows);
    assert_eq!(trades.len(), 1);
    assert_eq!(trades[0].mint, "TOKEN");
    let (price, volume) = price_and_volume(&trades[0]);
    assert_eq!(volume, 100.0);
    assert!((price - 0.01).abs() < 1e-9); // 1 SOL / 100 TOKEN
}

#[test]
fn multi_hop_excluded() {
    // two different non-WSOL mints change in the same tx -> not a direct pair
    let rows = vec![
        row("s1", "TOKEN_A", "100", "0", 6, 1, 0, 1000),
        row("s1", "TOKEN_B", "0", "50", 6, 1, 0, 1000),
        row("s1", WSOL_MINT, "1000000000", "0", 9, 1, 0, 1000),
    ];
    assert!(trades_of(&rows).is_empty());
}

#[test]
fn wrap_unwrap_only_excluded() {
    // only WSOL changes, no other token touched
    let rows = vec![row("s1", WSOL_MINT, "0", "1000000000", 9, 1, 0, 1000)];
    assert!(trades_of(&rows).is_empty());
}

#[test]
fn dust_excluded() {
    let rows = vec![
        row("s1", "TOKEN", "0", "1", 6, 1, 0, 1000),
        row("s1", WSOL_MINT, "1000", "0", 9, 1, 0, 1000), // far below dust floor
    ];
    assert!(trades_of(&rows).is_empty());
}

#[test]
fn same_direction_deltas_excluded() {
    // both legs decrease together (e.g. liquidity add) -> not a swap
    let rows = vec![
        row("s1", "TOKEN", "100000000", "0", 6, 1, 0, 1000),
        row("s1", WSOL_MINT, "1000000000", "0", 9, 1, 0, 1000),
    ];
    assert!(trades_of(&rows).is_empty());
}

struct PricedTrade {
    mint: &'static str,
    block_time: i64,
    slot: i64,
    tx_index: i64,
    price: f64,
    volume: f64,
}

struct Ohlcv {
    bucket_start: i64,
    open: f64,
    high: f64,
    low: f64,
    close: f64,
    volume: f64,
}

/// Groups with the library, then aggregates each group's prices and volumes.
fn candles(trades: &[PricedTrade], bucket_seconds: i64) -> Vec<Ohlcv> {
    let keys: Vec<TradeKey> = trades
        .iter()
        .map(|t| TradeKey {
            mint: t.mint.to_string(),
            block_time: t.block_time,
            slot: t.slot,
            tx_index: t.tx_index,
        })
        .collect();
    let groups: Vec<CandleGroup> = group_candles(&keys, bucket_seconds);
    groups
        .iter()
        .map(|g| {
            let prices: Vec<f64> = g.trades.iter().map(|&i| trades[i].price).collect();
            Ohlcv {
                bucket_start: g.bucket_start,
                open: prices[0],
                close: prices[prices.len() - 1],
                high: prices.iter().copied().fold(f64::MIN, f64::max),
                low: prices.iter().copied().fold(f64::MAX, f64::min),
                volume: g.trades.iter().map(|&i| trades[i].volume).sum(),
            }
        })
        .collect()
}

fn priced(block_time: i64, slot: i64, price: f64, volume: f64) -> PricedTrade {
    PricedTrade { mint: "TOKEN", block_time, slot, tx_index: 0, price, volume }
}

#[test]
fn candle_aggregates_open_high_low_close_volume() {
    let trades = vec![priced(1000, 1, 1.0, 10.0), priced(1005, 2, 1.5, 5.0), priced(1015, 3, 0.8, 2.0)];
    let candles = candles(&trades, 60);
    assert_eq!(candles.len(), 1); // all within the same 60s bucket
    let c = &candles[0];
    assert_eq!(c.open, 1.0);
    assert_eq!(c.close, 0.8);
    assert_eq!(c.high, 1.5);
    assert_eq!(c.low, 0.8);
    assert_eq!(c.volume, 17.0);
}

#[test]
fn candle_separates_buckets() {
    let trades = vec![priced(0, 1, 1.0, 1.0), priced(65, 2, 2.0, 1.0)];
    let candles = candles(&trades, 60);
    assert_eq!(candles.len(), 2);
}

#[test]
fn candle_orders_by_slot_then_tx_index_not_list_order() {
    let trades = vec![
        PricedTrade { mint: "TOKEN", block_time: 10, slot: 5, tx_index: 2, price: 3.0, volume: 1.0 },
        PricedTrade { mint: "TOKEN", block_time: 12, slot: 5, tx_index: 1, price: 2.0, volume: 1.0 },
        PricedTrade { mint: "TOKEN", block_time: 11, slot: 4, tx_index: 9, price: 1.0, volume: 1.0 },
    ];
    let keys: Vec<TradeKey> = trades
        .iter()
        .map(|t| TradeKey { mint: t.mint.to_string(), block_time: t.block_time, slot: t.slot, tx_index: t.tx_index })
        .collect();
    let groups = group_candles(&keys, 60);
    assert_eq!(groups.len(), 1);
    assert_eq!(groups[0].trades, vec![2, 1, 0]);
    let c = &candles(&trades, 60)[0];
    assert_eq!(c.open, 1.0);
    assert_eq!(c.close, 3.0);
}

#[test]
fn candle_groups_split_by_mint_and_cover_every_trade() {
    let keys = vec![
        TradeKey { mint: "A".to_string(), block_time: 0, slot: 1, tx_index: 0 },
        TradeKey { mint: "B".to_string(), block_time: 30, slot: 1, tx_index: 1 },
        TradeKey { mint: "A".to_string(), block_time: 299, slot: 2, tx_index: 0 },
        TradeKey { mint: "A".to_string(), block_time: 300, slot: 3, tx_index: 0 },
    ];
    let groups = group_candles(&keys, 300);
    let mut seen: Vec<(String, i64, Vec<usize>)> =
        groups.iter().map(|g| (g.mint.clone(), g.bucket_start, g.trades.clone())).collect();
    seen.sort();
    assert_eq!(
        seen,
        vec![
            ("A".to_string(), 0, vec![0, 2]),
            ("A".to_string(), 300, vec![3]),
            ("B".to_string(), 0, vec![1]),
        ]
    );
}

#[test]
fn bucket_start_is_euclidean() {
    assert_eq!(bucket_start(1015, 60), 960);
    assert_eq!(bucket_start(60, 60), 60);
    assert_eq!(bucket_start(-1, 60), -60);
    assert_eq!(bucket_start(299, 300), 0);
}

#[test]
fn parse_i128_reads_like_str_parse() {
    assert_eq!(parse_i128("0"), Some(0));
    assert_eq!(parse_i128("+42"), Some(42));
    assert_eq!(parse_i128("-17"), Some(-17));
    assert_eq!(parse_i128("170141183460469231731687303715884105727"), Some(i128::MAX));
    assert_eq!(parse_i128("-170141183460469231731687303715884105728"), Some(i128::MIN));
    assert_eq!(parse_i128("170141183460469231731687303715884105728"), None);
    assert_eq!(parse_i128(""), None);
    assert_eq!(parse_i128("-"), None);
    assert_eq!(parse_i128("12a"), None);
    assert_eq!(parse_i128(" 1"), None);
    assert_eq!(parse_i128("١"), None);
    for s in ["7", "-7", "+0", "000123", "-0"] {
        assert_eq!(parse_i128(s), s.parse::<i128>().ok());
    }
}

#[test]
fn raw_delta_treats_unreadable_amounts_as_zero() {
    assert_eq!(raw_delta("100", "250"), 150);
    assert_eq!(raw_delta("250", "100"), -150);
    assert_eq!(raw_delta("junk", "5"), 5);
    assert_eq!(raw_delta("5", ""), -5);
}

#[test]
fn round_million_unit_amount_is_a_mint_event_not_a_trade() {
    // exactly 1,000,000 whole tokens at 6 decimals
    let rows = vec![
        row("s1", "TOKEN", "0", "1000000000000", 6, 1, 0, 1000),
        row("s1", WSOL_MINT, "2000000000", "1000000000", 9, 1, 0, 1000),
    ];
    assert!(trades_of(&rows).is_empty());
}

#[test]
fn netted_routing_leaves_single_base_mint() {
    // TOKEN_A passes through two accounts and nets to zero; TOKEN_B is the trade
    let rows = vec![
        row("s1", "TOKEN_A", "0", "500", 6, 7, 3, 1000),
        row("s1", "TOKEN_A", "500", "0", 6, 7, 3, 1000),
        row("s1", "TOKEN_B", "1000", "0", 6, 7, 3, 1000),
        row("s1", WSOL_MINT, "0", "3000000", 9, 7, 3, 1000),
    ];
    let trades = trades_of(&rows);
    assert_eq!(trades.len(), 1);
    assert_eq!(trades[0].mint, "TOKEN_B");
    assert_eq!(trades[0].base_delta, -1000);
    assert_eq!(trades[0].wsol_delta, 3000000);
    assert_eq!((trades[0].slot, trades[0].tx_index, trades[0].block_time), (7, 3, 1000));
}

#[test]
fn one_trade_per_signature_run() {
    let rows = vec![
        row("s1", "TOKEN", "0", "100000000", 6, 1, 0, 1000),
        row("s1", WSOL_MINT, "2000000000", "1000000000", 9, 1, 0, 1000),
        row("s2", "OTHER", "5000", "0", 2, 1, 1, 1000),
        row("s2", WSOL_MINT, "0", "200000", 9, 1, 1, 1000),
        row("s3", WSOL_MINT, "0", "1", 9, 1, 2, 1000),
    ];
    let trades = trades_of(&rows);
    let mints: Vec<&str> = trades.iter().map(|t| t.mint.as_str()).collect();
    assert_eq!(mints, vec!["TOKEN", "OTHER"]);
    assert_eq!(trades[1].base_decimals, 2);
}

#[test]
fn dust_threshold_is_inclusive_of_the_floor() {
    let at_floor = DUST_THRESHOLD_LAMPORTS.to_string();
    let rows = vec![
        row("s1", "TOKEN", "0", "7", 0, 1, 0, 1000),
        row("s1", WSOL_MINT, &at_floor, "0", 9, 1, 0, 1000),
    ];
    assert_eq!(trades_of(&rows).len(), 1);
    let below = (DUST_THRESHOLD_LAMPORTS - 1).to_string();
    let rows = vec![
        row("s1", "TOKEN", "0", "7", 0, 1, 0, 1000),
        row("s1", WSOL_MINT, &below, "0", 9, 1, 0, 1000),
    ];
    assert!(trades_of(&rows).is_empty());
}

#[test]
fn overflowing_sums_are_reported() {
    let max = i128::MAX.to_string();
    let rows = vec![row("s1", "TOKEN", "0", &max, 6, 1, 0, 1000), row("s1", "TOKEN", "0", "1", 6, 1, 0, 1000)];
    assert!(matches!(trades_from_rows(&rows), Err(TradeError::Overflow)));
    assert!(matches!(trade_from_group(&rows, 0, 1), Ok(None)));
}

#[test]
fn oversized_decimals_are_reported() {
    let rows = vec![
        row("s1", "TOKEN", "0", "123", 40, 1, 0, 1000),
        row("s1", WSOL_MINT, "1000000000", "0", 9, 1, 0, 1000),
    ];
    assert!(matches!(trade_from_group(&rows, 0, 2), Err(TradeError::Overflow)));
}

#[test]
fn mirrored_rows_give_the_mirrored_trade() {
    let rows = vec![
        row("s1", "TOKEN", "0", "100000000", 6, 1, 0, 1000),
        row("s1", WSOL_MINT, "2000000000", "1000000000", 9, 1, 0, 1000),
    ];
    let mirror: Vec<BalanceRow> = rows
        .iter()
        .map(|r| row(&r.signature, &r.mint, &r.post_amount, &r.pre_amount, r.decimals, r.slot, r.tx_index, r.block_time))
        .collect();
    let a = trades_of(&rows);
    let b = trades_of(&mirror);
    assert_eq!(a.len(), 1);
    assert_eq!(b.len(), 1);
    assert_eq!(b[0].mint, a[0].mint);
    assert_eq!(b[0].base_delta, -a[0].base_delta);
    assert_eq!(b[0].wsol_delta, -a[0].wsol_delta);
    assert_eq!(price_and_volume(&a[0]), price_and_volume(&b[0]));
}

#[test]
fn trades_of_concatenated_runs_concatenate() {
    let first = vec![
        row("s1", "TOKEN", "0", "100000000", 6, 1, 0, 1000),
        row("s1", WSOL_MINT, "2000000000", "1000000000", 9, 1, 0, 1000),
    ];
    let second = vec![
        row("s2", "OTHER", "5000", "0", 2, 1, 1, 1000),
        row("s2", WSOL_MINT, "0", "200000", 9, 1, 1, 1000),
    ];
    let copy = |r: &BalanceRow| {
        row(&r.signature, &r.mint, &r.pre_amount, &r.post_amount, r.decimals, r.slot, r.tx_index, r.block_time)
    };
    let mut both: Vec<BalanceRow> = first.iter().map(copy).collect();
    both.extend(second.iter().map(|r| {
        row(&r.signature, &r.mint, &r.pre_amount, &r.post_amount, r.decimals, r.slot, r.tx_index, r.block_time)
    }));
    let mints = |v: Vec<TradeMatch>| v.into_iter().map(|t| t.mint).collect::<Vec<_>>();
    let mut expected = mints(trades_of(&first));
    expected.extend(mints(trades_of(&second)));
    assert_eq!(mints(trades_of(&both)), expected);
    assert_eq!(expected, vec!["TOKEN", "OTHER"]);
}

#[test]
fn candle_groups_do_not_depend_on_trade_order() {
    let key = |m: &str, t: i64, slot: i64, ix: i64| TradeKey { mint: m.to_string(), block_time: t, slot, tx_index: ix };
    let keys = vec![key("A", 0, 1, 0), key("B", 10, 1, 1), key("A", 20, 2, 0), key("A", 70, 3, 0)];
    // trade i of `keys` is trade perm[i] of `moved`
    let perm = [2usize, 0, 3, 1];
    let mut moved: Vec<TradeKey> = (0..4).map(|_| key("", 0, 0, 0)).collect();
    for (i, k) in keys.iter().enumerate() {
        moved[perm[i]] = key(&k.mint, k.block_time, k.slot, k.tx_index);
    }
    let normalise = |groups: Vec<CandleGroup>, map: &dyn Fn(usize) -> usize| {
        let mut v: Vec<(String, i64, Vec<usize>)> =
            groups.into_iter().map(|g| (g.mint, g.bucket_start, g.trades.into_iter().map(map).collect())).collect();
        v.sort();
        v
    };
    let a = normalise(group_candles(&keys, 60), &|i| perm[i]);
    let b = normalise(group_candles(&moved, 60), &|i| i);
    assert_eq!(a, b);
}

#[test]
fn no_trades_give_no_candles_for_any_width() {
    assert!(group_candles(&vec![], 0).is_empty());
    assert!(group_candles(&vec![], 60).is_empty());
}
