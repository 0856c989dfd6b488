use astralane::contention::{schedule_block, AccountLock, Transaction};

fn tx(sig: &str, index: i64, locks: Vec<AccountLock>) -> Transaction {
    Transaction {
        signature: sig.to_string(),
        tx_index: index,
        program_ids: vec!["SomeProgram".to_string()],
        locks,
    }
}

fn read(account: &str) -> AccountLock {
    AccountLock {
        account_pubkey: account.to_string(),
        is_writable: false,
    }
}

fn write(account: &str) -> AccountLock {
    AccountLock {
        account_pubkey: account.to_string(),
        is_writable: true,
    }
}

#[test]
fn read_read_no_conflict_same_step() {
    let txs = vec![tx("t1", 0, vec![read("A")]), tx("t2", 1, vec![read("A")])];
    let schedule = schedule_block(&txs);
    assert_eq!(schedule.steps.len(), 1);
    assert_eq!(schedule.steps[0], vec!["t1", "t2"]);
    assert!(schedule.conflicts.is_empty());
}

#[test]
fn write_write_conflict_separate_steps() {
    let txs = vec![tx("t1", 0, vec![write("A")]), tx("t2", 1, vec![write("A")])];
    let schedule = schedule_block(&txs);
    assert_eq!(schedule.steps.len(), 2);
    assert_eq!(schedule.steps[0], vec!["t1"]);
    assert_eq!(schedule.steps[1], vec!["t2"]);
    assert_eq!(schedule.conflicts.len(), 1);
    assert_eq!(schedule.conflicts[0].account_pubkey, "A");
    assert!(schedule.conflicts[0].is_writable);
}

#[test]
fn read_write_conflict_separate_steps() {
    let txs = vec![tx("t1", 0, vec![write("A")]), tx("t2", 1, vec![read("A")])];
    let schedule = schedule_block(&txs);
    assert_eq!(schedule.steps.len(), 2);
    assert_eq!(schedule.conflicts.len(), 1);
    assert_eq!(schedule.conflicts[0].account_pubkey, "A");
    assert!(!schedule.conflicts[0].is_writable);
}

#[test]
fn independent_accounts_same_step() {
    let txs = vec![tx("t1", 0, vec![write("A")]), tx("t2", 1, vec![write("B")])];
    let schedule = schedule_block(&txs);
    assert_eq!(schedule.steps.len(), 1);
    assert_eq!(schedule.steps[0], vec!["t1", "t2"]);
}

#[test]
fn rejected_by_every_earlier_step_records_each_conflict() {
    // t3 writes A (held by step 0) and reads B (written by step 1), so it is
    // rejected twice before opening a third step.
    let txs = vec![
        tx("t1", 0, vec![write("A")]),
        tx("t2", 1, vec![write("A"), write("B")]),
        tx("t3", 2, vec![write("A"), read("B")]),
    ];
    let schedule = schedule_block(&txs);
    assert_eq!(schedule.steps, vec![vec!["t1"], vec!["t2"], vec!["t3"]]);
    let accounts: Vec<(&str, bool)> = schedule
        .conflicts
        .iter()
        .map(|c| (c.account_pubkey.as_str(), c.is_writable))
        .collect();
    // t2 rejected by step 0 on A; t3 by step 0 on A, by step 1 on A and B.
    assert_eq!(
        accounts,
        vec![("A", true), ("A", true), ("A", true), ("B", false)]
    );
    assert_eq!(schedule.conflicts[3].program_ids, vec!["SomeProgram"]);
}

#[test]
fn later_transaction_fills_earlier_step() {
    let txs = vec![
        tx("t1", 0, vec![write("A")]),
        tx("t2", 1, vec![write("A")]),
        tx("t3", 2, vec![read("C")]),
    ];
    let schedule = schedule_block(&txs);
    assert_eq!(schedule.steps, vec![vec!["t1", "t3"], vec!["t2"]]);
    assert_eq!(schedule.conflicts.len(), 1);
}

#[test]
fn empty_block_has_empty_schedule() {
    let schedule = schedule_block(&[]);
    assert!(schedule.steps.is_empty());
    assert!(schedule.conflicts.is_empty());
}

#[test]
fn step_widths_add_up_to_block_size() {
    let txs = vec![
        tx("t1", 0, vec![write("A"), read("B")]),
        tx("t2", 1, vec![write("B")]),
        tx("t3", 2, vec![read("A")]),
        tx("t4", 3, vec![read("B"), read("C")]),
        tx("t5", 4, vec![write("C")]),
    ];
    let schedule = schedule_block(&txs);
    let widths: Vec<usize> = schedule.steps.iter().map(|s| s.len()).collect();
    assert_eq!(widths.iter().sum::<usize>(), txs.len());
    assert!(widths.iter().all(|&w| w > 0));
    assert_eq!(schedule.steps, vec![vec!["t1", "t4"], vec!["t2", "t3", "t5"]]);
}

fn sample_block() -> Vec<Transaction> {
    vec![
        tx("t1", 0, vec![write("A"), read("B")]),
        tx("t2", 1, vec![write("B")]),
        tx("t3", 2, vec![read("A"), write("D")]),
        tx("t4", 3, vec![write("D")]),
        tx("t5", 4, vec![read("C")]),
    ]
}

#[test]
fn schedule_of_a_prefix_is_a_prefix_of_the_schedule() {
    let txs = sample_block();
    let whole = schedule_block(&txs);
    for m in 0..=txs.len() {
        let part = schedule_block(&txs[..m]);
        assert!(part.steps.len() <= whole.steps.len());
        for (k, step) in part.steps.iter().enumerate() {
            assert_eq!(step[..], whole.steps[k][..step.len()]);
        }
        assert!(part.conflicts.len() <= whole.conflicts.len());
        for (e, w) in part.conflicts.iter().zip(whole.conflicts.iter()) {
            assert_eq!((&e.account_pubkey, e.is_writable), (&w.account_pubkey, w.is_writable));
        }
    }
}

#[test]
fn schedule_ignores_tx_index() {
    let txs = sample_block();
    let mut renumbered = txs.clone();
    for (i, t) in renumbered.iter_mut().enumerate() {
        t.tx_index = 100 - i as i64;
    }
    let a = schedule_block(&txs);
    let b = schedule_block(&renumbered);
    assert_eq!(a.steps, b.steps);
    assert_eq!(a.conflicts.len(), b.conflicts.len());
}

#[test]
fn conflict_between_two_transactions_is_symmetric() {
    let pairs = [
        (vec![read("A")], vec![read("A")]),
        (vec![read("A")], vec![write("A")]),
        (vec![write("A")], vec![read("B")]),
        (vec![write("A"), read("B")], vec![write("B")]),
    ];
    for (x, y) in pairs {
        let xy = schedule_block(&[tx("x", 0, x.clone()), tx("y", 1, y.clone())]);
        let yx = schedule_block(&[tx("y", 0, y), tx("x", 1, x)]);
        assert_eq!(xy.steps.len(), yx.steps.len());
    }
}
