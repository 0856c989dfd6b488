use astralane::block_rows::{
    assemble_block_transactions, program_ids_from_json, program_ids_json, LockRow, TransactionRow,
};

fn tx_row(sig: &str, index: i64, programs: &str) -> TransactionRow {
    TransactionRow { signature: sig.to_string(), tx_index: index, program_ids_json: programs.to_string() }
}

fn lock_row(sig: &str, account: &str, flag: i64) -> LockRow {
    LockRow { signature: sig.to_string(), account_pubkey: account.to_string(), is_writable: flag }
}

#[test]
fn transactions_get_their_locks_in_row_order() {
    let txs = vec![tx_row("s1", 0, "[\"P1\",\"P2\"]"), tx_row("s2", 1, "[]"), tx_row("s3", 2, "not json")];
    let locks = vec![
        lock_row("s2", "B", 0),
        lock_row("s1", "A", 1),
        lock_row("s2", "C", 7),
        lock_row("other", "Z", 1),
    ];
    let built = assemble_block_transactions(&txs, &locks);
    assert_eq!(built.len(), 3);
    assert_eq!(built[0].signature, "s1");
    assert_eq!(built[0].program_ids, vec!["P1", "P2"]);
    let a: Vec<(&str, bool)> = built[0].locks.iter().map(|l| (l.account_pubkey.as_str(), l.is_writable)).collect();
    assert_eq!(a, vec![("A", true)]);
    let b: Vec<(&str, bool)> = built[1].locks.iter().map(|l| (l.account_pubkey.as_str(), l.is_writable)).collect();
    assert_eq!(b, vec![("B", false), ("C", true)]);
    assert!(built[2].program_ids.is_empty());
    assert!(built[2].locks.is_empty());
    assert_eq!(built[2].tx_index, 2);
}

#[test]
fn repeated_signature_gets_locks_once() {
    let txs = vec![tx_row("s", 0, "[]"), tx_row("s", 1, "[]")];
    let locks = vec![lock_row("s", "A", 1)];
    let built = assemble_block_transactions(&txs, &locks);
    assert_eq!(built[0].locks.len(), 1);
    assert!(built[1].locks.is_empty());
}

#[test]
fn program_id_json_round_trips() {
    let ids = vec!["Alpha".to_string(), "Be\"ta".to_string()];
    let text = program_ids_json(&ids);
    assert_eq!(text, "[\"Alpha\",\"Be\\\"ta\"]");
    assert_eq!(program_ids_from_json(&text), ids);
    assert_eq!(program_ids_json(&vec![]), "[]");
    assert!(program_ids_from_json("[1, 2]").is_empty());
}
