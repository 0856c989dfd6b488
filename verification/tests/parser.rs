use astralane::json::JsonValue;
use astralane::pipeline::parser::{block_for_outcome, block_signatures, parse_block, parse_transaction};
use astralane::rpc::BlockFetchOutcome;

fn obj(members: Vec<(&str, JsonValue)>) -> JsonValue {
    JsonValue::Object(members.into_iter().map(|(k, v)| (k.to_string(), v)).collect())
}

fn text(s: &str) -> JsonValue {
    JsonValue::String(s.to_string())
}

fn num(n: i64) -> JsonValue {
    JsonValue::Number(Some(n))
}

fn key(pubkey: &str, signer: bool, source: &str, writable: bool) -> JsonValue {
    obj(vec![
        ("pubkey", text(pubkey)),
        ("signer", JsonValue::Bool(signer)),
        ("source", text(source)),
        ("writable", JsonValue::Bool(writable)),
    ])
}

fn balance(index: i64, mint: &str, amount: &str, decimals: i64) -> JsonValue {
    obj(vec![
        ("accountIndex", num(index)),
        ("mint", text(mint)),
        ("uiTokenAmount", obj(vec![("amount", text(amount)), ("decimals", num(decimals))])),
    ])
}

fn tx_json(
    signature: &str,
    err: JsonValue,
    keys: Vec<JsonValue>,
    programs: Vec<&str>,
    pre: Vec<JsonValue>,
    post: Vec<JsonValue>,
) -> JsonValue {
    obj(vec![
        (
            "meta",
            obj(vec![
                ("err", err),
                ("fee", num(5000)),
                ("preTokenBalances", JsonValue::Array(pre)),
                ("postTokenBalances", JsonValue::Array(post)),
            ]),
        ),
        (
            "transaction",
            obj(vec![
                ("signatures", JsonValue::Array(vec![text(signature)])),
                (
                    "message",
                    obj(vec![
                        ("accountKeys", JsonValue::Array(keys)),
                        (
                            "instructions",
                            JsonValue::Array(
                                programs.into_iter().map(|p| obj(vec![("programId", text(p))])).collect(),
                            ),
                        ),
                    ]),
                ),
            ]),
        ),
    ])
}

// Mirrors the shape of a live v0 transaction: jsonParsed with
// maxSupportedTransactionVersion=0 resolves lookup-table accounts directly
// into accountKeys, with the same pubkey/signer/writable fields as directly
// included ones, only with source "lookupTable".
fn v0_tx_with_alt_accounts() -> JsonValue {
    tx_json(
        "sig_v0_alt_test",
        JsonValue::Null,
        vec![
            key("DirectSigner", true, "transaction", true),
            key("DirectReadonly", false, "transaction", false),
            key("LookupWritable", false, "lookupTable", true),
            key("LookupReadonly", false, "lookupTable", false),
        ],
        vec!["SomeProgram1111111111111111111111111111"],
        vec![],
        vec![],
    )
}

#[test]
fn v0_lookup_table_accounts_resolved_into_locks() {
    let tx = v0_tx_with_alt_accounts();
    let parsed = parse_transaction(0, &tx).expect("should parse");

    assert_eq!(parsed.signature, "sig_v0_alt_test");
    assert_eq!(parsed.account_locks.len(), 4);

    let find = |pubkey: &str| {
        parsed
            .account_locks
            .iter()
            .find(|l| l.account_pubkey == pubkey)
            .unwrap_or_else(|| panic!("missing lock for {pubkey}"))
    };

    // directly-included accounts
    assert!(find("DirectSigner").is_writable);
    assert!(!find("DirectReadonly").is_writable);

    // lookup-table-resolved accounts - same extraction, no special-casing
    assert!(find("LookupWritable").is_writable);
    assert!(!find("LookupReadonly").is_writable);
}

#[test]
fn program_ids_are_sorted_and_distinct() {
    let tx = tx_json(
        "s",
        JsonValue::Null,
        vec![],
        vec!["Zeta", "Alpha", "Zeta", "Mid"],
        vec![],
        vec![],
    );
    let parsed = parse_transaction(3, &tx).expect("should parse");
    assert_eq!(parsed.program_ids, vec!["Alpha", "Mid", "Zeta"]);
    assert_eq!(parsed.tx_index, 3);
    assert!(parsed.success);
    assert_eq!(parsed.fee, 5000);
}

#[test]
fn failed_transaction_is_kept_with_success_false() {
    let err = obj(vec![("InstructionError", JsonValue::Array(vec![num(0), text("Custom")]))]);
    let tx = tx_json("s", err, vec![key("A", true, "transaction", true)], vec![], vec![], vec![]);
    let parsed = parse_transaction(0, &tx).expect("should parse");
    assert!(!parsed.success);
}

#[test]
fn keys_without_pubkey_or_writable_are_dropped() {
    let keys = vec![
        obj(vec![("pubkey", text("NoFlag"))]),
        key("Kept", false, "transaction", true),
        obj(vec![("writable", JsonValue::Bool(true))]),
        text("legacy-string-key"),
    ];
    let tx = tx_json("s", JsonValue::Null, keys, vec![], vec![], vec![]);
    let parsed = parse_transaction(0, &tx).expect("should parse");
    assert_eq!(parsed.account_locks.len(), 1);
    assert_eq!(parsed.account_locks[0].account_pubkey, "Kept");
}

#[test]
fn token_balances_pair_pre_and_post_by_account_index() {
    let pre = vec![balance(4, "MintA", "100", 6), balance(1, "MintB", "7", 2)];
    let post = vec![balance(1, "MintB", "9", 2), balance(2, "MintC", "5", 0)];
    let tx = tx_json("s", JsonValue::Null, vec![], vec![], pre, post);
    let parsed = parse_transaction(0, &tx).expect("should parse");
    let rows: Vec<(i64, &str, &str, &str, i64)> = parsed
        .token_balances
        .iter()
        .map(|r| (r.account_index, r.mint.as_str(), r.pre_amount.as_str(), r.post_amount.as_str(), r.decimals))
        .collect();
    assert_eq!(
        rows,
        vec![
            (1, "MintB", "7", "9", 2),
            (2, "MintC", "0", "5", 0),
            (4, "MintA", "100", "0", 6),
        ]
    );
}

#[test]
fn later_balance_entry_for_an_index_wins() {
    let post = vec![balance(1, "Old", "1", 0), balance(1, "New", "2", 3)];
    let tx = tx_json("s", JsonValue::Null, vec![], vec![], vec![], post);
    let parsed = parse_transaction(0, &tx).expect("should parse");
    assert_eq!(parsed.token_balances.len(), 1);
    assert_eq!(parsed.token_balances[0].mint, "New");
    assert_eq!(parsed.token_balances[0].post_amount, "2");
    assert_eq!(parsed.token_balances[0].decimals, 3);
}

#[test]
fn transaction_missing_fee_does_not_parse() {
    let tx = obj(vec![
        ("meta", obj(vec![("err", JsonValue::Null)])),
        (
            "transaction",
            obj(vec![
                ("signatures", JsonValue::Array(vec![text("s")])),
                (
                    "message",
                    obj(vec![("accountKeys", JsonValue::Array(vec![])), ("instructions", JsonValue::Array(vec![]))]),
                ),
            ]),
        ),
    ]);
    assert!(parse_transaction(0, &tx).is_none());
}

#[test]
fn block_keeps_positions_of_readable_transactions() {
    let good = v0_tx_with_alt_accounts();
    let block = obj(vec![
        ("blockhash", text("hash1")),
        ("blockTime", num(1_700_000_000)),
        ("transactions", JsonValue::Array(vec![JsonValue::Null, good])),
    ]);
    let parsed = parse_block(42, &block).expect("should parse");
    assert_eq!(parsed.slot, 42);
    assert_eq!(parsed.blockhash.as_deref(), Some("hash1"));
    assert_eq!(parsed.block_time, Some(1_700_000_000));
    assert!(!parsed.skipped);
    assert_eq!(parsed.transactions.len(), 1);
    assert_eq!(parsed.transactions[0].tx_index, 1);
}

#[test]
fn block_without_hash_does_not_parse_and_missing_time_is_none() {
    let block = obj(vec![("transactions", JsonValue::Array(vec![]))]);
    assert!(parse_block(1, &block).is_none());
    let block = obj(vec![("blockhash", text("h")), ("blockTime", JsonValue::Null), ("transactions", JsonValue::Array(vec![]))]);
    let parsed = parse_block(1, &block).expect("should parse");
    assert_eq!(parsed.block_time, None);
}

#[test]
fn fetch_outcomes_become_blocks() {
    let skipped = block_for_outcome(9, &BlockFetchOutcome::Skipped).expect("a skipped slot is stored");
    assert!(skipped.skipped);
    assert_eq!(skipped.slot, 9);
    assert!(skipped.blockhash.is_none() && skipped.block_time.is_none() && skipped.transactions.is_empty());

    assert!(block_for_outcome(9, &BlockFetchOutcome::Failed("x".to_string())).is_none());
    assert!(block_for_outcome(9, &BlockFetchOutcome::Fetched(JsonValue::Null)).is_none());
}

#[test]
fn block_signatures_keep_order_and_skip_non_strings() {
    let block = obj(vec![("signatures", JsonValue::Array(vec![text("b"), num(1), text("a")]))]);
    assert_eq!(block_signatures(&block), Some(vec!["b".to_string(), "a".to_string()]));
    assert_eq!(block_signatures(&obj(vec![("signatures", text("x"))])), None);
    assert_eq!(block_signatures(&JsonValue::Null), None);
}
