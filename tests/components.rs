use block_executor::codec::serialize_value;
use block_executor::mvs::{ReadResult, VersionedData};
use block_executor::scheduler::{Scheduler, SchedulerTask, TxnState};
use block_executor::state::BaseView;
use block_executor::types::{Cell, ExecutionStatus, Op, StateKey};
use block_executor::vm::{module_read_write, run_ops};

fn r(id: u64) -> StateKey {
    StateKey::resource(id)
}

fn next_work(s: &mut Scheduler) -> SchedulerTask {
    loop {
        let t = s.next_task();
        if t != SchedulerTask::NoTask {
            return t;
        }
    }
}

#[test]
fn serialized_value_is_little_endian() {
    let b = serialize_value(0x0102);
    assert_eq!(b.len(), 16);
    assert_eq!(b[0], 2);
    assert_eq!(b[1], 1);
    assert!(b[2..].iter().all(|x| *x == 0));
    assert_eq!(serialize_value(u128::MAX), vec![0xff; 16]);
}

#[test]
fn base_view_insert_and_get() {
    let mut base = BaseView::new();
    assert_eq!(base.get(r(1)), None);
    base.insert(r(1), 7);
    base.insert(r(2), 8);
    base.insert(r(1), 9);
    assert_eq!(base.get(r(1)), Some(9));
    assert_eq!(base.get(r(2)), Some(8));
    assert_eq!(base.get(StateKey::module(1)), None);
}

#[test]
fn versioned_read_sees_greatest_lower_writer() {
    let mut base = BaseView::new();
    base.insert(r(1), 1);
    let mut mvs = VersionedData::new(4);
    assert_eq!(mvs.read(r(1), 3, &base), ReadResult::Value(Some(1)));
    assert!(mvs.write(0, &vec![(r(1), Cell::Put(10))]));
    assert!(!mvs.write(0, &vec![(r(1), Cell::Put(11))]));
    mvs.write(2, &vec![(r(1), Cell::Del)]);
    assert_eq!(mvs.read(r(1), 0, &base), ReadResult::Value(Some(1)));
    assert_eq!(mvs.read(r(1), 1, &base), ReadResult::Value(Some(11)));
    assert_eq!(mvs.read(r(1), 2, &base), ReadResult::Value(Some(11)));
    assert_eq!(mvs.read(r(1), 3, &base), ReadResult::Value(None));
}

#[test]
fn estimate_makes_readers_wait() {
    let base = BaseView::new();
    let mut mvs = VersionedData::new(3);
    mvs.write(0, &vec![(r(1), Cell::Put(5))]);
    mvs.write(1, &vec![(r(1), Cell::Put(6))]);
    mvs.mark_estimate(1);
    assert_eq!(mvs.read(r(1), 2, &base), ReadResult::Dependency(1));
    assert_eq!(mvs.read(r(1), 1, &base), ReadResult::Value(Some(5)));
    mvs.write(1, &vec![]);
    assert_eq!(mvs.read(r(1), 2, &base), ReadResult::Value(Some(5)));
}

#[test]
fn deltas_sum_down_to_base() {
    let mut base = BaseView::new();
    base.insert(r(1), 100);
    let mut mvs = VersionedData::new(4);
    mvs.write(0, &vec![(r(1), Cell::Add(5))]);
    mvs.write(1, &vec![(r(1), Cell::Add(3))]);
    assert_eq!(mvs.read(r(1), 1, &base), ReadResult::Value(Some(105)));
    assert_eq!(mvs.read(r(1), 2, &base), ReadResult::Value(Some(108)));
    mvs.write(2, &vec![(r(1), Cell::Add(u128::MAX))]);
    assert_eq!(mvs.read(r(1), 3, &base), ReadResult::DeltaApplicationFailure);
    assert_eq!(mvs.read(r(2), 3, &base), ReadResult::Value(None));
    mvs.write(0, &vec![(r(2), Cell::Add(1))]);
    assert_eq!(mvs.read(r(2), 1, &base), ReadResult::DeltaApplicationFailure);
}

#[test]
fn scheduler_runs_execute_validate_commit() {
    let mut s = Scheduler::new(2);
    assert_eq!(s.next_task(), SchedulerTask::ExecutionTask(0, 0));
    assert_eq!(s.status(0), TxnState::Executing(0));
    assert_eq!(s.finish_execution(0, 0, true), SchedulerTask::ValidationTask(0, 0, 1));
    assert_eq!(s.try_commit(), None);
    s.finish_validation(0, 1);
    assert_eq!(s.try_commit(), Some((0, 0)));
    assert_eq!(s.commit_idx(), 1);
    assert_eq!(s.status(0), TxnState::Committed(0));
    assert_eq!(s.next_task(), SchedulerTask::NoTask);
    assert_eq!(next_work(&mut s), SchedulerTask::ExecutionTask(1, 0));
    assert!(s.halt());
    assert!(!s.halt());
    assert_eq!(s.next_task(), SchedulerTask::Done);
}

#[test]
fn scheduler_abort_bumps_incarnation() {
    let mut s = Scheduler::new(3);
    assert_eq!(s.next_task(), SchedulerTask::ExecutionTask(0, 0));
    s.finish_execution(0, 0, false);
    assert!(!s.try_abort(0, 1));
    assert!(s.try_abort(0, 0));
    assert!(!s.try_abort(0, 0));
    assert_eq!(s.status(0), TxnState::Aborting(0));
    assert!(s.finish_abort(0, 0));
    assert_eq!(s.status(0), TxnState::ReadyToExecute(1));
    assert_eq!(s.next_task(), SchedulerTask::ExecutionTask(0, 1));
}

#[test]
fn scheduler_resumes_suspended_txn() {
    let mut s = Scheduler::new(2);
    assert_eq!(s.next_task(), SchedulerTask::ExecutionTask(0, 0));
    assert_eq!(next_work(&mut s), SchedulerTask::ExecutionTask(1, 0));
    s.suspend(1, 0, 0);
    assert_eq!(s.status(1), TxnState::Suspended(0, 0));
    s.finish_execution(0, 0, false);
    assert_eq!(s.status(1), TxnState::ReadyToExecute(0));
    assert_eq!(next_work(&mut s), SchedulerTask::ExecutionTask(1, 0));
}

#[test]
fn run_records_reads_and_writes() {
    let ops = vec![
        Op::Read { key: r(1) },
        Op::Copy { from: r(2), to: r(3) },
        Op::SkipRest,
    ];
    let e = run_ops(&ops, &vec![Some(4), None]);
    assert_eq!(e.status, ExecutionStatus::SkipRest);
    assert_eq!(e.observed, vec![Some(4)]);
    assert_eq!(e.writes, vec![(r(3), Cell::Del)]);
    let e = run_ops(&vec![Op::Write { key: r(1), value: 1 }, Op::Abort, Op::Write { key: r(2), value: 2 }], &vec![]);
    assert_eq!(e.status, ExecutionStatus::Abort);
    assert!(e.writes.is_empty());
}

#[test]
fn module_read_write_detection() {
    let m = StateKey::module(3);
    assert!(module_read_write(&vec![Op::Read { key: m }, Op::Add { key: m, amount: 1 }]));
    assert!(!module_read_write(&vec![Op::Read { key: m }, Op::Write { key: r(1), value: 1 }]));
    assert!(!module_read_write(&vec![Op::Write { key: m, value: 1 }]));
}

#[test]
fn delayed_field_writes_are_not_outside() {
    let mut mvs = VersionedData::new(2);
    let f = StateKey::delayed_field(1);
    assert!(!mvs.write(0, &vec![(f, Cell::Add(1))]));
    assert!(mvs.write(0, &vec![(f, Cell::Add(1)), (r(2), Cell::Put(3))]));
    assert!(!mvs.write(0, &vec![(r(2), Cell::Put(4))]));
}
