use block_executor::executor::{BlockExecutor, ParallelBlockExecutionError};
use block_executor::state::BaseView;
use block_executor::txn_commit_hook::CommitLog;
use block_executor::types::{
    BlockExecutionError, BlockExecutorConfig, BlockGasLimitType, DiscardCode, Op, OutputKind, StateKey, Transaction,
    TransactionOutput,
};

fn config(level: usize) -> BlockExecutorConfig {
    BlockExecutorConfig {
        concurrency_level: level,
        allow_fallback: true,
        discard_failed_blocks: false,
        block_gas_limit_type: BlockGasLimitType {
            block_gas_limit: None,
            block_output_limit: None,
            include_user_txn_size_in_block_output: false,
        },
    }
}

fn executor(level: usize) -> BlockExecutor {
    BlockExecutor { config: config(level) }
}

fn txn(ops: Vec<Op>) -> Transaction {
    Transaction { ops, gas: 1, user_txn_bytes_len: 0 }
}

fn r(id: u64) -> StateKey {
    StateKey::resource(id)
}

fn bytes(v: u128) -> Option<Vec<u8>> {
    Some(v.to_le_bytes().to_vec())
}

fn interleavings() -> Vec<Vec<usize>> {
    vec![
        vec![],
        vec![0, 0, 0, 0, 0, 0, 0, 0, 0, 0, 0, 0],
        vec![1, 0, 1, 1, 0, 0, 1, 0, 1, 1, 1, 0, 0, 0, 1],
        vec![2, 2, 1, 0, 2, 1, 0, 0, 2, 1, 2, 0, 1, 1, 2, 0, 0, 2],
        vec![3, 1, 4, 1, 5, 9, 2, 6, 5, 3, 5, 8, 9, 7, 9, 3, 2, 3, 8, 4, 6],
    ]
}

fn same_outputs(a: &[TransactionOutput], b: &[TransactionOutput]) -> bool {
    a.len() == b.len()
        && a.iter().zip(b.iter()).all(|(x, y)| {
            x.kind == y.kind && x.reads == y.reads && x.writes == y.writes && x.groups == y.groups
        })
}

/// Runs the block sequentially and in parallel under several interleavings,
/// checks that they agree, and returns the sequential outputs.
fn run_all(block: &Vec<Transaction>, base: &BaseView) -> Vec<TransactionOutput> {
    let seq = executor(1).execute_transactions_sequential(block, base, &mut CommitLog::new()).expect("sequential run");
    for level in [2usize, 3, 4] {
        for choices in interleavings() {
            let par = executor(level)
                .execute_transactions_parallel(block, base, &choices, &mut CommitLog::new())
                .expect("parallel run");
            assert!(same_outputs(&par, &seq));
        }
    }
    let whole = executor(4).execute_block(block, base, &mut CommitLog::new()).expect("block");
    assert!(same_outputs(&whole, &seq));
    seq
}

#[test]
fn trivial_block_is_empty() {
    let base = BaseView::new();
    let block: Vec<Transaction> = Vec::new();
    assert!(run_all(&block, &base).is_empty());
    let par = executor(2).execute_transactions_parallel(&block, &base, &vec![], &mut CommitLog::new()).unwrap();
    assert!(par.is_empty());
}

#[test]
fn independent_writes_commit() {
    let base = BaseView::new();
    let block = vec![
        txn(vec![Op::Write { key: r(1), value: 11 }]),
        txn(vec![Op::Write { key: r(2), value: 22 }]),
        txn(vec![Op::Write { key: r(3), value: 33 }]),
    ];
    let out = run_all(&block, &base);
    assert_eq!(out.len(), 3);
    for (i, v) in [11u128, 22, 33].iter().enumerate() {
        assert_eq!(out[i].kind, OutputKind::Committed);
        assert_eq!(out[i].writes, vec![(r(i as u64 + 1), bytes(*v))]);
    }
}

#[test]
fn read_after_write_sees_earlier_txn() {
    let base = BaseView::new();
    let block = vec![
        txn(vec![Op::Write { key: r(7), value: 65 }]),
        txn(vec![Op::Read { key: r(7) }]),
    ];
    let out = run_all(&block, &base);
    assert_eq!(out[0].writes, vec![(r(7), bytes(65))]);
    assert_eq!(out[1].reads, vec![Some(65)]);
    assert!(out[1].writes.is_empty());
}

#[test]
fn write_after_write_last_writer_wins() {
    let mut base = BaseView::new();
    base.insert(r(1), 5);
    let block = vec![
        txn(vec![Op::Read { key: r(1) }, Op::Write { key: r(9), value: 100 }]),
        txn(vec![Op::Write { key: r(9), value: 200 }]),
        txn(vec![Op::Read { key: r(9) }]),
    ];
    let out = run_all(&block, &base);
    assert_eq!(out[0].reads, vec![Some(5)]);
    assert_eq!(out[1].writes, vec![(r(9), bytes(200))]);
    assert_eq!(out[2].reads, vec![Some(200)]);
}

#[test]
fn aggregator_deltas_accumulate() {
    let mut base = BaseView::new();
    base.insert(r(4), 100);
    let block = vec![
        txn(vec![Op::Add { key: r(4), amount: 5 }]),
        txn(vec![Op::Add { key: r(4), amount: 3 }]),
        txn(vec![Op::Read { key: r(4) }]),
    ];
    let out = run_all(&block, &base);
    assert_eq!(out[0].writes, vec![(r(4), bytes(105))]);
    assert_eq!(out[1].writes, vec![(r(4), bytes(108))]);
    assert_eq!(out[2].reads, vec![Some(108)]);
}

#[test]
fn skip_rest_skips_later_txns() {
    let base = BaseView::new();
    let block = vec![
        txn(vec![Op::Write { key: r(1), value: 1 }]),
        txn(vec![Op::Write { key: r(2), value: 2 }, Op::SkipRest]),
        txn(vec![Op::Write { key: r(3), value: 3 }]),
        txn(vec![Op::Read { key: r(1) }]),
    ];
    let out = run_all(&block, &base);
    assert_eq!(out.len(), 4);
    assert_eq!(out[0].kind, OutputKind::Committed);
    assert_eq!(out[1].kind, OutputKind::Committed);
    assert_eq!(out[1].writes, vec![(r(2), bytes(2))]);
    assert_eq!(out[2].kind, OutputKind::Skipped);
    assert_eq!(out[3].kind, OutputKind::Skipped);
    assert!(out[2].writes.is_empty() && out[3].reads.is_empty());
}

#[test]
fn module_read_write_falls_back_to_sequential() {
    let base = BaseView::new();
    let m = StateKey::module(1);
    let block = vec![
        txn(vec![Op::Write { key: r(1), value: 1 }]),
        txn(vec![Op::Read { key: m }, Op::Write { key: m, value: 9 }]),
    ];
    let par = executor(2).execute_transactions_parallel(&block, &base, &vec![], &mut CommitLog::new());
    assert!(matches!(par, Err(ParallelBlockExecutionError::ModulePathReadWriteError)));
    let seq = executor(1).execute_transactions_sequential(&block, &base, &mut CommitLog::new()).unwrap();
    let whole = executor(2).execute_block(&block, &base, &mut CommitLog::new()).unwrap();
    assert!(same_outputs(&whole, &seq));
    assert_eq!(whole[1].reads, vec![None]);
    assert_eq!(whole[1].writes, vec![(m, bytes(9))]);
}

#[test]
fn fallback_forbidden_is_an_error() {
    let base = BaseView::new();
    let m = StateKey::module(1);
    let block = vec![txn(vec![Op::Read { key: m }, Op::Write { key: m, value: 9 }])];
    let mut cfg = config(2);
    cfg.allow_fallback = false;
    let e = BlockExecutor { config: cfg }.execute_block(&block, &base, &mut CommitLog::new());
    assert_eq!(e.unwrap_err(), BlockExecutionError::FallbackNotAllowed);
}

#[test]
fn vm_abort_is_fatal() {
    let base = BaseView::new();
    let block = vec![
        txn(vec![Op::Write { key: r(1), value: 1 }]),
        txn(vec![Op::Abort]),
    ];
    let e = executor(1).execute_transactions_sequential(&block, &base, &mut CommitLog::new());
    assert_eq!(e.unwrap_err(), BlockExecutionError::FatalVMError(1));
    let e = executor(3).execute_block(&block, &base, &mut CommitLog::new());
    assert_eq!(e.unwrap_err(), BlockExecutionError::FatalVMError(1));
}

#[test]
fn failed_block_is_discarded_when_configured() {
    let base = BaseView::new();
    let block = vec![
        txn(vec![Op::Write { key: r(1), value: 1 }]),
        txn(vec![Op::Abort]),
        txn(vec![Op::Write { key: r(2), value: 2 }]),
    ];
    let mut cfg = config(2);
    cfg.discard_failed_blocks = true;
    let out = BlockExecutor { config: cfg }.execute_block(&block, &base, &mut CommitLog::new()).unwrap();
    assert_eq!(out.len(), 3);
    for o in &out {
        assert_eq!(o.kind, OutputKind::Discarded(DiscardCode::UnknownInvariantViolationError));
    }
}

#[test]
fn delta_without_base_is_an_executor_error() {
    let base = BaseView::new();
    let block = vec![txn(vec![Op::Add { key: r(5), amount: 1 }])];
    let e = executor(1).execute_transactions_sequential(&block, &base, &mut CommitLog::new());
    assert_eq!(e.unwrap_err(), BlockExecutionError::FatalBlockExecutorError(0));
    let mut cfg = config(1);
    cfg.discard_failed_blocks = true;
    let out = BlockExecutor { config: cfg }.execute_block(&block, &base, &mut CommitLog::new()).unwrap();
    assert_eq!(out[0].kind, OutputKind::Discarded(DiscardCode::DelayedMaterializationCodeInvariantError));
}

#[test]
fn delta_overflow_is_an_executor_error() {
    let mut base = BaseView::new();
    base.insert(r(5), u128::MAX - 1);
    let block = vec![
        txn(vec![Op::Add { key: r(5), amount: 1 }]),
        txn(vec![Op::Add { key: r(5), amount: 1 }]),
    ];
    let e = executor(1).execute_transactions_sequential(&block, &base, &mut CommitLog::new());
    assert_eq!(e.unwrap_err(), BlockExecutionError::FatalBlockExecutorError(1));
    let e = executor(2).execute_block(&block, &base, &mut CommitLog::new());
    assert_eq!(e.unwrap_err(), BlockExecutionError::FatalBlockExecutorError(1));
}

#[test]
fn gas_limit_ends_block() {
    let base = BaseView::new();
    let block = vec![
        Transaction { ops: vec![Op::Write { key: r(1), value: 1 }], gas: 4, user_txn_bytes_len: 0 },
        Transaction { ops: vec![Op::Write { key: r(2), value: 2 }], gas: 6, user_txn_bytes_len: 0 },
        Transaction { ops: vec![Op::Write { key: r(3), value: 3 }], gas: 1, user_txn_bytes_len: 0 },
    ];
    let mut cfg = config(1);
    cfg.block_gas_limit_type.block_gas_limit = Some(10);
    let seq = BlockExecutor { config: cfg }.execute_transactions_sequential(&block, &base, &mut CommitLog::new()).unwrap();
    assert_eq!(seq[0].kind, OutputKind::Committed);
    assert_eq!(seq[1].kind, OutputKind::Committed);
    assert_eq!(seq[2].kind, OutputKind::Skipped);
    cfg.concurrency_level = 3;
    let par = BlockExecutor { config: cfg }.execute_transactions_parallel(&block, &base, &vec![2, 1, 0], &mut CommitLog::new()).unwrap();
    assert!(same_outputs(&par, &seq));
}

#[test]
fn gas_limit_on_last_txn_does_not_skip() {
    let base = BaseView::new();
    let block = vec![
        Transaction { ops: vec![Op::Write { key: r(1), value: 1 }], gas: 1, user_txn_bytes_len: 0 },
        Transaction { ops: vec![Op::Write { key: r(2), value: 2 }], gas: 50, user_txn_bytes_len: 0 },
    ];
    let mut cfg = config(1);
    cfg.block_gas_limit_type.block_gas_limit = Some(10);
    let seq = BlockExecutor { config: cfg }.execute_transactions_sequential(&block, &base, &mut CommitLog::new()).unwrap();
    assert_eq!(seq[1].kind, OutputKind::Committed);
}

#[test]
fn copy_chain_propagates_values() {
    let mut base = BaseView::new();
    base.insert(r(1), 42);
    let block = vec![
        txn(vec![Op::Copy { from: r(1), to: r(2) }]),
        txn(vec![Op::Copy { from: r(2), to: r(3) }]),
        txn(vec![Op::Delete { key: r(1) }, Op::Copy { from: r(3), to: r(4) }]),
        txn(vec![Op::Read { key: r(4) }, Op::Read { key: r(1) }, Op::Copy { from: r(1), to: r(2) }]),
    ];
    let out = run_all(&block, &base);
    assert_eq!(out[1].writes, vec![(r(3), bytes(42))]);
    assert_eq!(out[2].writes, vec![(r(1), None), (r(4), bytes(42))]);
    assert_eq!(out[3].reads, vec![Some(42), None]);
    assert_eq!(out[3].writes, vec![(r(2), None)]);
}

#[test]
fn own_writes_are_read_back() {
    let mut base = BaseView::new();
    base.insert(r(1), 10);
    let block = vec![txn(vec![
        Op::Add { key: r(1), amount: 5 },
        Op::Read { key: r(1) },
        Op::Write { key: r(2), value: 3 },
        Op::Add { key: r(2), amount: 4 },
        Op::Read { key: r(2) },
    ])];
    let out = run_all(&block, &base);
    assert_eq!(out[0].reads, vec![Some(15), Some(7)]);
    assert_eq!(out[0].writes, vec![(r(1), bytes(15)), (r(2), bytes(7))]);
}

#[test]
fn contended_block_matches_sequential() {
    let mut base = BaseView::new();
    base.insert(r(0), 1000);
    base.insert(r(1), 7);
    let mut block = Vec::new();
    for i in 0..12u64 {
        block.push(txn(vec![
            Op::Read { key: r(1 + i % 3) },
            Op::Add { key: r(0), amount: i },
            Op::Copy { from: r(1 + (i + 1) % 3), to: r(1 + i % 3) },
            Op::Write { key: r(10 + i % 2), value: i as u128 },
        ]));
    }
    block.push(txn(vec![Op::Read { key: r(0) }, Op::Read { key: r(1) }, Op::Read { key: r(11) }]));
    let out = run_all(&block, &base);
    assert_eq!(out[12].reads[0], Some(1000 + (0..12u128).sum::<u128>()));
    assert_eq!(out[12].reads[2], Some(11));
}

#[test]
fn new_checks_concurrency_level() {
    assert!(BlockExecutor::new(config(0)).is_none());
    let e = BlockExecutor::new(config(1)).unwrap();
    assert_eq!(e.config.concurrency_level, 1);
    assert!(BlockExecutor::new(config(usize::MAX)).is_none());
}

#[test]
fn listener_hears_each_committed_txn_once() {
    let base = BaseView::new();
    let block = vec![
        txn(vec![Op::Write { key: r(1), value: 1 }]),
        txn(vec![Op::Read { key: r(1) }, Op::SkipRest]),
        txn(vec![Op::Write { key: r(3), value: 3 }]),
    ];
    for level in [1usize, 2, 3] {
        let mut log = CommitLog::new();
        executor(level).execute_block(&block, &base, &mut log).unwrap();
        assert_eq!(log.committed, vec![0, 1]);
        assert!(log.aborted.is_empty());
    }
}

#[test]
fn listener_not_told_twice_after_fallback() {
    let base = BaseView::new();
    let m = StateKey::module(2);
    let block = vec![
        txn(vec![Op::Write { key: r(1), value: 1 }]),
        txn(vec![Op::Write { key: r(2), value: 2 }]),
        txn(vec![Op::Read { key: m }, Op::Write { key: m, value: 1 }]),
    ];
    let mut log = CommitLog::new();
    let out = executor(2).execute_block(&block, &base, &mut log).unwrap();
    assert_eq!(out.len(), 3);
    assert_eq!(log.committed, vec![0, 1, 2]);
}

#[test]
fn listener_hears_abort_in_sequential_run() {
    let base = BaseView::new();
    let block = vec![
        txn(vec![Op::Write { key: r(1), value: 1 }]),
        txn(vec![Op::Abort]),
    ];
    let mut log = CommitLog::new();
    let e = executor(1).execute_transactions_sequential(&block, &base, &mut log);
    assert!(e.is_err());
    assert_eq!(log.committed, vec![0]);
    assert_eq!(log.aborted, vec![1]);
}

/// The bcs form of a group whose members are given in bcs key order.
fn group_bytes(members: &[(u64, u128)]) -> Vec<u8> {
    let mut b = vec![members.len() as u8];
    for (t, v) in members {
        b.extend_from_slice(&t.to_le_bytes());
        b.push(16);
        b.extend_from_slice(&v.to_le_bytes());
    }
    b
}

#[test]
fn group_writes_output_finalized_group() {
    let mut base = BaseView::new();
    let g = |t: u64| StateKey::group_member(7, t);
    base.insert(g(1), 10);
    base.insert(g(2), 20);
    let block = vec![
        txn(vec![Op::Write { key: g(3), value: 30 }]),
        txn(vec![Op::Read { key: g(1) }]),
        txn(vec![Op::Delete { key: g(1) }, Op::Add { key: g(2), amount: 2 }]),
        txn(vec![Op::Write { key: StateKey::group_member(8, 256), value: 1 }, Op::Write { key: StateKey::group_member(8, 1), value: 2 }]),
    ];
    let out = run_all(&block, &base);
    assert_eq!(out[0].groups, vec![(7, group_bytes(&[(1, 10), (2, 20), (3, 30)]))]);
    assert!(out[1].groups.is_empty());
    assert_eq!(out[1].reads, vec![Some(10)]);
    assert_eq!(out[2].groups, vec![(7, group_bytes(&[(2, 22), (3, 30)]))]);
    assert_eq!(out[3].groups, vec![(8, group_bytes(&[(256, 1), (1, 2)]))]);
}

#[test]
fn group_members_are_versioned_separately() {
    let base = BaseView::new();
    let g = |t: u64| StateKey::group_member(1, t);
    let block = vec![
        txn(vec![Op::Write { key: g(1), value: 1 }]),
        txn(vec![Op::Write { key: g(2), value: 2 }]),
        txn(vec![Op::Read { key: g(1) }, Op::Read { key: g(2) }, Op::Copy { from: g(2), to: g(1) }]),
    ];
    let out = run_all(&block, &base);
    assert_eq!(out[2].reads, vec![Some(1), Some(2)]);
    assert_eq!(out[2].groups, vec![(1, group_bytes(&[(1, 2), (2, 2)]))]);
}

#[test]
fn delayed_fields_checked_at_commit() {
    let mut base = BaseView::new();
    let f = StateKey::delayed_field(1);
    base.insert(f, 10);
    let block = vec![
        txn(vec![Op::Add { key: f, amount: 5 }]),
        txn(vec![Op::Read { key: f }, Op::Copy { from: f, to: r(2) }]),
        txn(vec![Op::Add { key: f, amount: 1 }, Op::Read { key: f }]),
        txn(vec![Op::Read { key: f }, Op::Read { key: r(2) }]),
    ];
    let out = run_all(&block, &base);
    assert_eq!(out[0].writes, vec![(f, bytes(15))]);
    assert_eq!(out[1].reads, vec![Some(15)]);
    assert_eq!(out[2].reads, vec![Some(16)]);
    assert_eq!(out[2].writes, vec![(f, bytes(16))]);
    assert_eq!(out[3].reads, vec![Some(16), Some(15)]);
}

#[test]
fn parallel_vm_abort_is_reported() {
    let base = BaseView::new();
    let block = vec![
        txn(vec![Op::Write { key: r(1), value: 1 }]),
        txn(vec![Op::Read { key: r(1) }, Op::Abort]),
        txn(vec![Op::Write { key: r(2), value: 2 }]),
    ];
    let par = executor(2).execute_transactions_parallel(&block, &base, &vec![], &mut CommitLog::new());
    assert!(matches!(par, Err(ParallelBlockExecutionError::FatalVMError(1))));
}

#[test]
fn sequential_run_is_deterministic() {
    let mut base = BaseView::new();
    base.insert(r(1), 3);
    let block = vec![
        txn(vec![Op::Read { key: r(1) }, Op::Add { key: r(1), amount: 4 }]),
        txn(vec![Op::Copy { from: r(1), to: r(2) }, Op::Write { key: StateKey::group_member(5, 1), value: 9 }]),
        txn(vec![Op::Read { key: r(2) }]),
    ];
    let a = executor(1).execute_transactions_sequential(&block, &base, &mut CommitLog::new()).unwrap();
    let b = executor(1).execute_transactions_sequential(&block, &base, &mut CommitLog::new()).unwrap();
    assert!(same_outputs(&a, &b));
    assert_eq!(a[2].reads, vec![Some(7)]);
}

#[test]
fn output_limit_ends_block() {
    let base = BaseView::new();
    let block = vec![
        txn(vec![Op::Write { key: r(1), value: 1 }]),
        txn(vec![Op::Write { key: r(2), value: 2 }]),
        txn(vec![Op::Write { key: r(3), value: 3 }]),
    ];
    let mut cfg = config(1);
    cfg.block_gas_limit_type.block_output_limit = Some(32);
    let seq = BlockExecutor { config: cfg }.execute_transactions_sequential(&block, &base, &mut CommitLog::new()).unwrap();
    assert_eq!(seq[1].kind, OutputKind::Committed);
    assert_eq!(seq[2].kind, OutputKind::Skipped);
    cfg.concurrency_level = 2;
    let par = BlockExecutor { config: cfg }.execute_transactions_parallel(&block, &base, &vec![1, 0, 1], &mut CommitLog::new()).unwrap();
    assert!(same_outputs(&par, &seq));
}

#[test]
fn output_limit_counts_user_txn_size() {
    let base = BaseView::new();
    let sized = |k: u64| Transaction { ops: vec![Op::Write { key: r(k), value: 1 }], gas: 1, user_txn_bytes_len: 100 };
    let block = vec![sized(1), sized(2), sized(3)];
    let mut cfg = config(1);
    cfg.block_gas_limit_type.block_output_limit = Some(150);
    let out = BlockExecutor { config: cfg }.execute_transactions_sequential(&block, &base, &mut CommitLog::new()).unwrap();
    assert_eq!(out[2].kind, OutputKind::Committed);
    cfg.block_gas_limit_type.include_user_txn_size_in_block_output = true;
    let out = BlockExecutor { config: cfg }.execute_transactions_sequential(&block, &base, &mut CommitLog::new()).unwrap();
    assert_eq!(out[0].kind, OutputKind::Committed);
    assert_eq!(out[1].kind, OutputKind::Committed);
    assert_eq!(out[2].kind, OutputKind::Skipped);
    cfg.concurrency_level = 3;
    let par = BlockExecutor { config: cfg }.execute_block(&block, &base, &mut CommitLog::new()).unwrap();
    assert!(same_outputs(&par, &out));
}

#[test]
fn new_with_cpus_admits_levels_up_to_cpu_count() {
    assert!(BlockExecutor::new_with_cpus(config(0), 4).is_none());
    for level in 1..=4usize {
        assert_eq!(BlockExecutor::new_with_cpus(config(level), 4).unwrap().config.concurrency_level, level);
    }
    assert!(BlockExecutor::new_with_cpus(config(5), 4).is_none());
}

#[test]
fn failing_block_without_fallback_is_an_error() {
    let base = BaseView::new();
    let block = vec![
        txn(vec![Op::Write { key: r(1), value: 1 }]),
        txn(vec![Op::Abort]),
    ];
    let mut cfg = config(2);
    cfg.allow_fallback = false;
    let mut log = CommitLog::new();
    let e = BlockExecutor { config: cfg }.execute_block(&block, &base, &mut log);
    assert_eq!(e.unwrap_err(), BlockExecutionError::FallbackNotAllowed);
    assert!(log.committed.is_empty());
    assert!(log.aborted.is_empty());
}

#[test]
fn block_listener_hears_abort_after_fallback() {
    let base = BaseView::new();
    let block = vec![
        txn(vec![Op::Write { key: r(1), value: 1 }]),
        txn(vec![Op::Add { key: r(9), amount: 1 }]),
        txn(vec![Op::Write { key: r(2), value: 2 }]),
    ];
    let mut log = CommitLog::new();
    let e = executor(2).execute_block(&block, &base, &mut log);
    assert_eq!(e.unwrap_err(), BlockExecutionError::FatalBlockExecutorError(1));
    assert_eq!(log.committed, vec![0]);
    assert_eq!(log.aborted, vec![1]);
}
