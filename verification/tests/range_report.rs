use astralane::contention::{AccountLock, BlockReport, RangeAccumulator, Transaction};
use astralane::range_report::depth_stats;

fn tx(sig: &str, index: i64, programs: &[&str], locks: &[(&str, bool)]) -> Transaction {
    Transaction {
        signature: sig.to_string(),
        tx_index: index,
        program_ids: programs.iter().map(|p| p.to_string()).collect(),
        locks: locks
            .iter()
            .map(|(a, w)| AccountLock { account_pubkey: a.to_string(), is_writable: *w })
            .collect(),
    }
}

#[test]
fn range_report_counts_and_ranks_conflicts() {
    let mut acc = RangeAccumulator::new();
    // block 10: t2 rejected by step 0 on A (write); t3 rejected on A (read)
    let block10 = vec![
        tx("t1", 0, &["P1"], &[("A", true)]),
        tx("t2", 1, &["P1", "P2"], &[("A", true)]),
        tx("t3", 2, &["P2"], &[("A", false), ("B", true)]),
    ];
    assert!(acc.add_block(10, &block10));
    // block 11: u2 rejected by step 0 on B (write)
    let block11 = vec![tx("u1", 0, &["P3"], &[("B", true)]), tx("u2", 1, &["P2"], &[("B", true)])];
    assert!(acc.add_block(11, &block11));
    let report = acc.finish();

    let blocks: Vec<(i64, usize, Vec<usize>)> = report
        .blocks
        .iter()
        .map(|b| (b.slot, b.schedule_depth, b.step_widths.clone()))
        .collect();
    assert_eq!(blocks, vec![(10, 3, vec![1, 1, 1]), (11, 2, vec![1, 1])]);

    let accounts: Vec<(&str, u64, u64)> = report
        .accounts
        .iter()
        .map(|a| (a.account_pubkey.as_str(), a.write_conflicts, a.read_conflicts))
        .collect();
    // t3 is rejected by step 0 (A) and by step 1 (A), as a reader both times
    assert_eq!(accounts, vec![("A", 1, 2), ("B", 1, 0)]);

    let programs: Vec<(&str, u64, u64)> = report
        .programs
        .iter()
        .map(|p| (p.program_id.as_str(), p.write_conflicts, p.read_conflicts))
        .collect();
    assert_eq!(programs, vec![("P2", 2, 2), ("P1", 1, 0)]);
}

#[test]
fn ties_keep_first_appearance_order() {
    let mut acc = RangeAccumulator::new();
    let block = vec![
        tx("a1", 0, &[], &[("Z", true)]),
        tx("a2", 1, &[], &[("Z", true)]),
        tx("b1", 2, &[], &[("Y", true)]),
        tx("b2", 3, &[], &[("Y", true)]),
    ];
    assert!(acc.add_block(1, &block));
    let report = acc.finish();
    let keys: Vec<&str> = report.accounts.iter().map(|a| a.account_pubkey.as_str()).collect();
    assert_eq!(keys, vec!["Z", "Y"]);
    assert!(report.programs.is_empty());
}

#[test]
fn empty_range_gives_empty_report() {
    let report = RangeAccumulator::new().finish();
    assert!(report.blocks.is_empty() && report.accounts.is_empty() && report.programs.is_empty());
}

#[test]
fn block_without_conflicts_adds_only_its_line() {
    let mut acc = RangeAccumulator::new();
    assert!(acc.add_block(5, &[tx("x", 0, &["P"], &[("A", false)]), tx("y", 1, &["P"], &[("A", false)])]));
    assert!(acc.add_block(6, &[]));
    let report = acc.finish();
    assert_eq!(report.blocks.len(), 2);
    assert_eq!(report.blocks[0].step_widths, vec![2]);
    assert_eq!(report.blocks[1].schedule_depth, 0);
    assert!(report.accounts.is_empty());
}

#[test]
fn depth_stats_summarise_block_lines() {
    let blocks = vec![
        BlockReport { slot: 1, schedule_depth: 3, step_widths: vec![4, 1, 2] },
        BlockReport { slot: 2, schedule_depth: 1, step_widths: vec![9] },
        BlockReport { slot: 3, schedule_depth: 2, step_widths: vec![1, 1] },
    ];
    let st = depth_stats(&blocks).expect("fits");
    assert_eq!((st.block_count, st.min_depth, st.max_depth, st.depth_sum), (3, 1, 3, 6));
    assert_eq!((st.width_count, st.max_width, st.width_sum), (6, 9, 18));
    let empty = depth_stats(&vec![]).expect("fits");
    assert_eq!((empty.block_count, empty.min_depth, empty.max_depth, empty.width_count), (0, 0, 0, 0));
    let huge = vec![
        BlockReport { slot: 1, schedule_depth: usize::MAX, step_widths: vec![] },
        BlockReport { slot: 2, schedule_depth: 1, step_widths: vec![] },
    ];
    assert!(depth_stats(&huge).is_none());
}
