//! The block executor: speculative parallel execution over the
//! multi-version store, committed in index order, with a sequential
//! fallback.
//!
//! Workers are interleaved deterministically: each step runs one task of
//! one worker to its end. A transaction is committed only after its reads
//! were checked against the final writes of all transactions before it, so
//! the committed outputs are those of sequential execution
//! (`sequential_block`) whatever the interleaving.
use vstd::prelude::*;
use crate::assoc::{to_map, unique_keys};
use crate::mvs::{entries_of, estimates_at, mv_read, new_outside, MvEntry, ReadResult, VersionedData};
use crate::scheduler::{
    commit_ready, finish_abort_spec, validation_recorded, Scheduler, SchedulerTask, SchedulerView, TxnState, Wave,
};
use crate::state::{
    answers, applies, apply_cell, apply_writes, commits_at, committed_indices, committed_output,
    discard_model, discard_output, effect_in, lemma_materialized,
    lemma_seq_run_stable, lemma_sequential_errors, materialized, output_groups, outputs_view, runs_at,
    failed_indices, result_view, seq_run, seq_step, sequential_block, skip_model, skip_output, state_fn, sval,
    BaseView, OutputModel,
};
use crate::txn_commit_hook::TransactionCommitHook;
use crate::limit_processor::{approx_output_size, limit_reached, SIZE_BOUND};
use crate::types::{
    BlockExecutionError, BlockExecutorConfig, BlockGasLimitType, Cell, DiscardCode, Effect, ExecutionStatus,
    Incarnation, KeyKind, OutputKind, StateKey, Transaction, TransactionOutput, TxnIndex,
};
use crate::vm::{module_read_write, read_key_list, read_keys, reads_and_writes_module, run, run_ops};

verus! {

/// Executes blocks of transactions under one configuration.
pub struct BlockExecutor {
    pub config: BlockExecutorConfig,
}

/// Why a parallel run gave up; the block may still run sequentially.
#[derive(Clone, Copy, Debug, PartialEq, Eq, Structural)]
pub enum ParallelBlockExecutionError {
    /// A transaction both read and wrote modules.
    ModulePathReadWriteError,
    /// The VM failed without recovery at this transaction.
    FatalVMError(TxnIndex),
    /// An internal invariant failed.
    CodeInvariantError,
}

/// The last execution of a transaction: its incarnation, the answers to
/// its reads, and its effect.
struct TxnRecord {
    incarnation: Incarnation,
    answers: Vec<Option<u128>>,
    effect: Effect,
    /// A read met increments that could not be applied; the record cannot
    /// pass validation.
    read_failed: bool,
}

spec fn record_ok(r: TxnRecord, t: Transaction) -> bool {
    &&& unique_keys(r.effect.writes@)
    &&& !r.read_failed ==> r.effect@ == run(t.ops@, r.answers@) && r.answers@.len() == read_keys(t.ops@).len()
}

/// Whether the reads of a record (but those of delayed fields, unless
/// `include_delayed`) see its answers now at its index.
spec fn reads_current_except(r: TxnRecord, t: Transaction, w: Seq<Map<StateKey, MvEntry>>, base: Map<StateKey, u128>, idx: int, include_delayed: bool) -> bool {
    &&& !r.read_failed
    &&& r.answers@.len() == read_keys(t.ops@).len()
    &&& forall|s: int| 0 <= s < r.answers@.len() && (include_delayed || read_keys(t.ops@)[s].kind != KeyKind::DelayedField)
        ==> #[trigger] mv_read(w, base, read_keys(t.ops@)[s], idx) == ReadResult::Value(r.answers@[s])
}

/// Whether all the reads of a record see its answers now at its index.
spec fn reads_current(r: TxnRecord, t: Transaction, w: Seq<Map<StateKey, MvEntry>>, base: Map<StateKey, u128>, idx: int) -> bool {
    reads_current_except(r, t, w, base, idx, true)
}

/// The shared state of one parallel run.
struct ParallelState {
    versioned_cache: VersionedData,
    last_input_output: Vec<Option<TxnRecord>>,
    scheduler: Scheduler,
    final_results: Vec<TransactionOutput>,
    gas: u128,
    output_size: u128,
}

/// The entries that sequential execution leaves for transaction `j`: its
/// writes where it is committed, none where it is discarded.
spec fn committed_entries(block: Seq<Transaction>, base: Map<StateKey, u128>, limit: BlockGasLimitType, j: int) -> Map<StateKey, MvEntry> {
    if commits_at(block, base, limit, j) {
        entries_of(effect_in(block[j], seq_run(block, base, limit, j as nat).ov, base).writes)
    } else {
        Map::empty()
    }
}

/// The store holds, below `c`, what sequential execution committed.
spec fn committed_below(block: Seq<Transaction>, base: Map<StateKey, u128>, limit: BlockGasLimitType, w: Seq<Map<StateKey, MvEntry>>, c: int) -> bool {
    &&& c <= w.len()
    &&& forall|j: int| 0 <= j < c ==> #[trigger] runs_at(block, base, limit, j)
    &&& forall|j: int| 0 <= j < c ==> #[trigger] w[j] == committed_entries(block, base, limit, j)
    &&& seq_run(block, base, limit, c as nat).err is None
}

impl ParallelState {
    /// The run's invariant with `c` transactions committed.
    spec fn inv_core(&self, block: Seq<Transaction>, base: Map<StateKey, u128>, limit: BlockGasLimitType, c: int) -> bool {
        let n = block.len();
        let s = seq_run(block, base, limit, c as nat);
        &&& 0 < n <= u32::MAX
        &&& 0 <= c <= n
        &&& self.versioned_cache.wf()
        &&& self.scheduler.wf()
        &&& self.versioned_cache@.len() == n
        &&& self.last_input_output@.len() == n
        &&& self.scheduler@.status.len() == n
        &&& committed_below(block, base, limit, self.versioned_cache@, c)
        &&& outputs_view(self.final_results@) == s.outs
        &&& self.final_results@.len() == c
        &&& self.gas == s.gas
        &&& self.gas <= c * (u64::MAX as int)
        &&& self.output_size == s.size
        &&& self.output_size <= c * SIZE_BOUND
        &&& forall|i: int| 0 <= i < n && (#[trigger] self.last_input_output@[i]) is Some ==> record_ok(self.last_input_output@[i]->Some_0, block[i])
    }

    /// The run's invariant: the scheduler's commit pointer, and the run
    /// halts exactly when the committed prefix is final.
    spec fn inv(&self, block: Seq<Transaction>, base: Map<StateKey, u128>, limit: BlockGasLimitType) -> bool {
        let c = self.scheduler@.commit_idx;
        &&& self.inv_core(block, base, limit, c as int)
        &&& self.scheduler@.halted <==> (seq_run(block, base, limit, c).stopped || c == block.len())
    }
}

/// Whether some transaction of the block both reads and writes modules.
pub open spec fn block_has_module_rw(block: Seq<Transaction>) -> bool {
    exists|i: int| 0 <= i < block.len() && #[trigger] reads_and_writes_module(block[i].ops@)
}

/// Entries at or above `i` do not change what a reader at `i` sees.
proof fn lemma_read_frame(w: Seq<Map<StateKey, MvEntry>>, base: Map<StateKey, u128>, k: StateKey, i: int, x: int, e: Map<StateKey, MvEntry>)
    requires
        0 <= i <= x < w.len(),
    ensures
        mv_read(w.update(x, e), base, k, i) == mv_read(w, base, k, i),
    decreases i,
{
    if i > 0 {
        lemma_read_frame(w, base, k, i - 1, x, e);
    }
}

/// Below the commit pointer the store holds the committed writes, so a
/// reader at the pointer sees the sequential state.
proof fn lemma_committed_reads(block: Seq<Transaction>, base: Map<StateKey, u128>, limit: BlockGasLimitType, w: Seq<Map<StateKey, MvEntry>>, c: int, k: StateKey)
    requires
        0 <= c,
        committed_below(block, base, limit, w, c),
    ensures
        mv_read(w, base, k, c) == ReadResult::Value(sval(seq_run(block, base, limit, c as nat).ov, base, k)),
    decreases c,
{
    if c > 0 {
        let j = c - 1;
        let s = seq_run(block, base, limit, j as nat);
        assert(runs_at(block, base, limit, j));
        assert(committed_below(block, base, limit, w, j));
        lemma_committed_reads(block, base, limit, w, j, k);
        let e = effect_in(block[j], s.ov, base);
        assert(seq_run(block, base, limit, c as nat) == seq_step(block, base, limit, s, j));
        if commits_at(block, base, limit, j) {
            assert(w[j] == entries_of(e.writes));
            if e.writes.contains_key(k) {
                assert(applies(s.ov, base, e.writes));
            }
        } else {
            assert(w[j] == Map::<StateKey, MvEntry>::empty());
        }
    }
}

/// Below the commit pointer, every key of the sequential overlay has an
/// entry in the store.
proof fn lemma_ov_dom(block: Seq<Transaction>, base: Map<StateKey, u128>, limit: BlockGasLimitType, w: Seq<Map<StateKey, MvEntry>>, c: int, k: StateKey)
    requires
        0 <= c,
        committed_below(block, base, limit, w, c),
        seq_run(block, base, limit, c as nat).ov.contains_key(k),
    ensures
        exists|j: int| 0 <= j < c && (#[trigger] w[j]).contains_key(k),
    decreases c,
{
    if c > 0 {
        let j = c - 1;
        let s = seq_run(block, base, limit, j as nat);
        assert(runs_at(block, base, limit, j));
        assert(committed_below(block, base, limit, w, j));
        let e = effect_in(block[j], s.ov, base);
        assert(seq_run(block, base, limit, c as nat) == seq_step(block, base, limit, s, j));
        if commits_at(block, base, limit, j) && e.writes.contains_key(k) {
            assert(w[j].contains_key(k));
        } else {
            lemma_ov_dom(block, base, limit, w, j, k);
        }
    }
}

/// Once the entries of the transaction at the commit pointer are written,
/// a reader just above it sees the sequential state after it.
proof fn lemma_read_after_commit(block: Seq<Transaction>, base: Map<StateKey, u128>, limit: BlockGasLimitType, w: Seq<Map<StateKey, MvEntry>>, c: int, k: StateKey)
    requires
        0 <= c < w.len(),
        c < block.len(),
        committed_below(block, base, limit, w, c),
        applies(seq_run(block, base, limit, c as nat).ov, base, effect_in(block[c], seq_run(block, base, limit, c as nat).ov, base).writes),
    ensures ({
        let s = seq_run(block, base, limit, c as nat);
        let e = effect_in(block[c], s.ov, base);
        mv_read(w.update(c, entries_of(e.writes)), base, k, c + 1)
            == ReadResult::Value(sval(s.ov.union_prefer_right(materialized(s.ov, base, e.writes)), base, k))
    }),
{
    let s = seq_run(block, base, limit, c as nat);
    let e = effect_in(block[c], s.ov, base);
    let w2 = w.update(c, entries_of(e.writes));
    lemma_read_frame(w, base, k, c, c, entries_of(e.writes));
    lemma_committed_reads(block, base, limit, w, c, k);
    assert(w2[c] == entries_of(e.writes));
}

/// Answers read at the commit pointer are the sequential state's answers.
proof fn lemma_answers_sequential(
    block: Seq<Transaction>,
    base: Map<StateKey, u128>,
    limit: BlockGasLimitType,
    w: Seq<Map<StateKey, MvEntry>>,
    c: int,
    r: TxnRecord,
)
    requires
        0 <= c < block.len(),
        committed_below(block, base, limit, w, c),
        reads_current(r, block[c], w, base, c),
    ensures
        r.answers@ == answers(block[c].ops@, seq_run(block, base, limit, c as nat).ov, base),
{
    let keys = read_keys(block[c].ops@);
    let ov = seq_run(block, base, limit, c as nat).ov;
    assert forall|s: int| 0 <= s < keys.len() implies r.answers@[s] == sval(ov, base, keys[s]) by {
        lemma_committed_reads(block, base, limit, w, c, keys[s]);
        assert(mv_read(w, base, keys[s], c) == ReadResult::Value(r.answers@[s]));
    }
    assert(r.answers@ =~= answers(block[c].ops@, ov, base));
}

/// How an execution task ended.
enum ExecutionOutcome {
    /// The effect was recorded; true where it wrote outside the previous
    /// write set.
    Executed(bool),
    /// A read met an estimate of this transaction.
    Dependency(TxnIndex),
}

/// Reads the answers that `ops` need from the store at `idx`: all of them,
/// or the first dependency, or a failure to apply increments.
fn read_versioned(keys: &Vec<StateKey>, mvs: &VersionedData, idx: usize, base: &BaseView) -> (r: Result<Vec<Option<u128>>, ReadResult>)
    requires
        mvs.wf(),
        base.wf(),
        idx <= mvs@.len(),
        mvs@.len() <= u32::MAX,
    ensures
        match r {
            Ok(a) => a@.len() == keys@.len() && forall|s: int| 0 <= s < keys@.len() ==> #[trigger] mv_read(mvs@, base@, keys@[s], idx as int) == ReadResult::Value(a@[s]),
            Err(e) => !(e is Value) && exists|s: int| 0 <= s < keys@.len() && #[trigger] mv_read(mvs@, base@, keys@[s], idx as int) == e,
        },
{
    let mut a: Vec<Option<u128>> = Vec::new();
    let mut s: usize = 0;
    while s < keys.len()
        invariant
            mvs.wf(),
            base.wf(),
            idx <= mvs@.len(),
            mvs@.len() <= u32::MAX,
            s <= keys@.len(),
            a@.len() == s,
            forall|j: int| 0 <= j < s ==> #[trigger] mv_read(mvs@, base@, keys@[j], idx as int) == ReadResult::Value(a@[j]),
        decreases keys@.len() - s,
    {
        match mvs.read(keys[s], idx, base) {
            ReadResult::Value(v) => a.push(v),
            other => {
                assert(mv_read(mvs@, base@, keys@[s as int], idx as int) == other);
                return Err(other);
            },
        }
        s = s + 1;
    }
    Ok(a)
}

impl BlockExecutor {
    /// Executes incarnation `inc` of `idx` against the store: records the
    /// answers and effect, and replaces the entries of `idx` by its writes.
    fn execute(
        idx: usize,
        inc: Incarnation,
        block: &Vec<Transaction>,
        st: &mut ParallelState,
        base: &BaseView,
        limit: Ghost<BlockGasLimitType>,
        c: Ghost<int>,
    ) -> (r: Result<ExecutionOutcome, ParallelBlockExecutionError>)
        requires
            old(st).inv_core(block@, base@, limit@, c@),
            base.wf(),
            c@ <= idx < block@.len(),
        ensures
            r is Ok ==> final(st).inv_core(block@, base@, limit@, c@),
            final(st).scheduler@ == old(st).scheduler@,
            r is Ok ==> final(st).versioned_cache@.len() == old(st).versioned_cache@.len()
                && forall|j: int| 0 <= j < idx ==> #[trigger] final(st).versioned_cache@[j] == old(st).versioned_cache@[j],
            r matches Ok(ExecutionOutcome::Executed(u)) ==> final(st).last_input_output@[idx as int] is Some
                && final(st).last_input_output@[idx as int]->Some_0.incarnation == inc
                && (!final(st).last_input_output@[idx as int]->Some_0.read_failed ==> reads_current(
                    final(st).last_input_output@[idx as int]->Some_0, block@[idx as int], old(st).versioned_cache@, base@, idx as int)),
            r matches Ok(ExecutionOutcome::Executed(u)) ==> ({
                let rec = final(st).last_input_output@[idx as int]->Some_0;
                &&& final(st).versioned_cache@ == old(st).versioned_cache@.update(idx as int, entries_of(to_map(rec.effect.writes@)))
                &&& u == exists|k: StateKey| #[trigger] to_map(rec.effect.writes@).contains_key(k)
                    && new_outside(old(st).versioned_cache@[idx as int], k)
                &&& rec.read_failed || !reads_and_writes_module(block@[idx as int].ops@)
                &&& !rec.read_failed ==> rec.effect@ == run(block@[idx as int].ops@, rec.answers@)
                &&& rec.read_failed ==> rec.effect.writes@.len() == 0
                    && rec.effect.status == ExecutionStatus::DeltaApplicationFailure
                &&& forall|j: int| 0 <= j < block@.len() && j != idx
                    ==> #[trigger] final(st).last_input_output@[j] == old(st).last_input_output@[j]
            }),
            r matches Ok(ExecutionOutcome::Dependency(d)) ==> final(st).versioned_cache@ == old(st).versioned_cache@
                && final(st).last_input_output@ == old(st).last_input_output@,
            (r is Ok && ((r->Ok_0) is Dependency || (final(st).last_input_output@[idx as int] is Some
                && final(st).last_input_output@[idx as int]->Some_0.read_failed)))
                ==> exists|s: int| 0 <= s < read_keys(block@[idx as int].ops@).len()
                    && !(#[trigger] mv_read(old(st).versioned_cache@, base@, read_keys(block@[idx as int].ops@)[s], idx as int) is Value),
            r matches Err(e) ==> e == ParallelBlockExecutionError::ModulePathReadWriteError && reads_and_writes_module(block@[idx as int].ops@),
    {
        let txn = &block[idx];
        let keys = read_key_list(&txn.ops);
        let ghost w0 = st.versioned_cache@;
        let (answers, effect, read_failed) = match read_versioned(&keys, &st.versioned_cache, idx, base) {
            Ok(a) => {
                let e = run_ops(&txn.ops, &a);
                (a, e, false)
            },
            Err(ReadResult::Dependency(d)) => {
                return Ok(ExecutionOutcome::Dependency(d));
            },
            Err(_) => {
                let e = Effect { status: ExecutionStatus::DeltaApplicationFailure, observed: Vec::new(), writes: Vec::new() };
                (Vec::new(), e, true)
            },
        };
        if !read_failed && module_read_write(&txn.ops) {
            return Err(ParallelBlockExecutionError::ModulePathReadWriteError);
        }
        let updates_outside = st.versioned_cache.write(idx, &effect.writes);
        proof {
            let c = c@;
            assert forall|j: int| 0 <= j < c implies #[trigger] st.versioned_cache@[j] == committed_entries(block@, base@, limit@, j) by {
                assert(st.versioned_cache@[j] == w0[j]);
            }
            assert(committed_below(block@, base@, limit@, st.versioned_cache@, c));
        }
        let rec = TxnRecord { incarnation: inc, answers, effect, read_failed };
        st.last_input_output.set(idx, Some(rec));
        proof {
            assert forall|i: int| 0 <= i < block@.len() && (#[trigger] st.last_input_output@[i]) is Some implies record_ok(st.last_input_output@[i]->Some_0, block@[i]) by {
                if i != idx {
                    assert(st.last_input_output@[i] == old(st).last_input_output@[i]);
                }
            }
        }
        Ok(ExecutionOutcome::Executed(updates_outside))
    }

    /// Whether the reads recorded for `idx` still see the same values;
    /// reads of delayed fields are left to the check at commit.
    fn validate(idx: usize, block: &Vec<Transaction>, st: &ParallelState, base: &BaseView, limit: Ghost<BlockGasLimitType>, c: Ghost<int>) -> (valid: bool)
        requires
            st.inv_core(block@, base@, limit@, c@),
            base.wf(),
            idx < block@.len(),
        ensures
            valid <==> st.last_input_output@[idx as int] is Some
                && reads_current_except(st.last_input_output@[idx as int]->Some_0, block@[idx as int], st.versioned_cache@, base@, idx as int, false),
    {
        Self::check_reads(idx, block, st, base, limit, c, false)
    }

    fn check_reads(idx: usize, block: &Vec<Transaction>, st: &ParallelState, base: &BaseView, limit: Ghost<BlockGasLimitType>, c: Ghost<int>, include_delayed: bool) -> (valid: bool)
        requires
            st.inv_core(block@, base@, limit@, c@),
            base.wf(),
            idx < block@.len(),
        ensures
            valid <==> st.last_input_output@[idx as int] is Some
                && reads_current_except(st.last_input_output@[idx as int]->Some_0, block@[idx as int], st.versioned_cache@, base@, idx as int, include_delayed),
    {
        match &st.last_input_output[idx] {
            None => false,
            Some(rec) => {
                if rec.read_failed {
                    return false;
                }
                proof {
                    assert(record_ok(*rec, block@[idx as int]));
                }
                let keys = read_key_list(&block[idx].ops);
                reads_match(&keys, &rec.answers, &st.versioned_cache, idx, base, include_delayed)
            },
        }
    }
}

/// Whether each read of `keys` (but those of delayed fields, unless
/// `include_delayed`) sees `answers` at `idx`.
fn reads_match(keys: &Vec<StateKey>, answers: &Vec<Option<u128>>, mvs: &VersionedData, idx: usize, base: &BaseView, include_delayed: bool) -> (r: bool)
    requires
        mvs.wf(),
        base.wf(),
        idx <= mvs@.len(),
        mvs@.len() <= u32::MAX,
        keys@.len() == answers@.len(),
    ensures
        r <==> forall|s: int| 0 <= s < keys@.len() && (include_delayed || keys@[s].kind != KeyKind::DelayedField)
            ==> #[trigger] mv_read(mvs@, base@, keys@[s], idx as int) == ReadResult::Value(answers@[s]),
{
    let mut s: usize = 0;
    while s < keys.len()
        invariant
            mvs.wf(),
            base.wf(),
            idx <= mvs@.len(),
            mvs@.len() <= u32::MAX,
            keys@.len() == answers@.len(),
            s <= keys@.len(),
            forall|j: int| 0 <= j < s && (include_delayed || keys@[j].kind != KeyKind::DelayedField)
                ==> #[trigger] mv_read(mvs@, base@, keys@[j], idx as int) == ReadResult::Value(answers@[j]),
        decreases keys@.len() - s,
    {
        if include_delayed || keys[s].kind != KeyKind::DelayedField {
            if mvs.read(keys[s], idx, base) != ReadResult::Value(answers[s]) {
                assert(!(mv_read(mvs@, base@, keys@[s as int], idx as int) == ReadResult::Value(answers@[s as int])));
                return false;
            }
        }
        s = s + 1;
    }
    true
}

} // verus!

verus! {

fn copy_values(v: &Vec<Option<u128>>) -> (r: Vec<Option<u128>>)
    ensures
        r@ == v@,
{
    let mut r: Vec<Option<u128>> = Vec::new();
    let mut i: usize = 0;
    while i < v.len()
        invariant
            i <= v@.len(),
            r@ == v@.take(i as int),
        decreases v@.len() - i,
    {
        r.push(v[i]);
        i = i + 1;
        assert(r@ =~= v@.take(i as int));
    }
    assert(v@.take(v@.len() as int) =~= v@);
    r
}

impl BlockExecutor {
    /// Turns the entries of an aborted `idx` into estimates.
    fn update_transaction_on_abort(idx: usize, st: &mut ParallelState, block: Ghost<Seq<Transaction>>, base: Ghost<Map<StateKey, u128>>, limit: Ghost<BlockGasLimitType>, c: Ghost<int>)
        requires
            old(st).inv_core(block@, base@, limit@, c@),
            c@ <= idx < block@.len(),
        ensures
            final(st).inv_core(block@, base@, limit@, c@),
            final(st).versioned_cache@ == estimates_at(old(st).versioned_cache@, idx as int),
            final(st).scheduler@ == old(st).scheduler@,
            final(st).last_input_output@ == old(st).last_input_output@,
    {
        let ghost w0 = st.versioned_cache@;
        st.versioned_cache.mark_estimate(idx);
        assert(st.versioned_cache@ == estimates_at(w0, idx as int));
        proof {
            assert forall|j: int| 0 <= j < c@ implies #[trigger] st.versioned_cache@[j] == committed_entries(block@, base@, limit@, j) by {
                assert(st.versioned_cache@[j] == w0[j]);
            }
        }
    }

    /// Acts on the outcome of validating incarnation `inc` of `idx`: aborts
    /// it where the reads changed (and no one aborted it first), else
    /// records the validation and arms commits.
    fn update_on_validation(
        idx: usize,
        inc: Incarnation,
        valid: bool,
        wave: Wave,
        st: &mut ParallelState,
        block: Ghost<Seq<Transaction>>,
        base: Ghost<Map<StateKey, u128>>,
        limit: Ghost<BlockGasLimitType>,
    ) -> (r: Result<SchedulerTask, ParallelBlockExecutionError>)
        requires
            old(st).inv(block@, base@, limit@),
            idx < block@.len(),
        ensures
            final(st).inv(block@, base@, limit@),
            final(st).last_input_output@ == old(st).last_input_output@,
            (!valid && old(st).scheduler@.status[idx as int] == TxnState::Executed(inc)) ==> ({
                let aborting = SchedulerView { status: old(st).scheduler@.status.update(idx as int, TxnState::Aborting(inc)), ..old(st).scheduler@ };
                &&& final(st).versioned_cache@ == estimates_at(old(st).versioned_cache@, idx as int)
                &&& inc < u32::MAX ==> r == Ok::<SchedulerTask, ParallelBlockExecutionError>(SchedulerTask::NoTask)
                    && final(st).scheduler@ == finish_abort_spec(aborting, idx as int, inc)
                &&& inc == u32::MAX ==> r == Err::<SchedulerTask, ParallelBlockExecutionError>(ParallelBlockExecutionError::CodeInvariantError)
                    && final(st).scheduler@ == aborting
            }),
            !(!valid && old(st).scheduler@.status[idx as int] == TxnState::Executed(inc)) ==> {
                &&& r == Ok::<SchedulerTask, ParallelBlockExecutionError>(SchedulerTask::NoTask)
                &&& final(st).versioned_cache@ == old(st).versioned_cache@
                &&& final(st).scheduler@ == if valid {
                    SchedulerView { armed: true, ..validation_recorded(old(st).scheduler@, idx as int, wave) }
                } else {
                    validation_recorded(old(st).scheduler@, idx as int, wave)
                }
            },
    {
        let aborted = !valid && st.scheduler.try_abort(idx, inc);
        if aborted {
            proof {
                st.scheduler.lemma_wf();
                assert(st.scheduler@.status[idx as int] == TxnState::Aborting(inc));
            }
            Self::update_transaction_on_abort(idx, st, block, base, limit, Ghost(st.scheduler@.commit_idx as int));
            if !st.scheduler.finish_abort(idx, inc) {
                return Err(ParallelBlockExecutionError::CodeInvariantError);
            }
            Ok(SchedulerTask::NoTask)
        } else {
            st.scheduler.finish_validation(idx, wave);
            if valid {
                st.scheduler.queueing_commits_arm();
            }
            Ok(SchedulerTask::NoTask)
        }
    }

    /// Checks, before committing `idx`, that its reads still hold.
    fn validate_commit_ready(idx: usize, block: &Vec<Transaction>, st: &ParallelState, base: &BaseView, limit: Ghost<BlockGasLimitType>, c: Ghost<int>) -> (valid: bool)
        requires
            st.inv_core(block@, base@, limit@, c@),
            base.wf(),
            idx < block@.len(),
        ensures
            valid <==> st.last_input_output@[idx as int] is Some
                && reads_current(st.last_input_output@[idx as int]->Some_0, block@[idx as int], st.versioned_cache@, base@, idx as int),
    {
        Self::check_reads(idx, block, st, base, limit, c, true)
    }

    /// The final values of the writes `ws` of `idx`: increments are applied
    /// to what a reader at `idx` sees.
    fn materialize_aggregator_v1_delta_writes(idx: usize, ws: &Vec<(StateKey, Cell)>, mvs: &VersionedData, base: &BaseView) -> (r: Result<Vec<(StateKey, Option<u128>)>, ParallelBlockExecutionError>)
        requires
            mvs.wf(),
            base.wf(),
            idx <= mvs@.len(),
            mvs@.len() <= u32::MAX,
        ensures
            r matches Ok(m) ==> m@.len() == ws@.len() && forall|j: int| 0 <= j < ws@.len() ==> {
                let v = mv_read(mvs@, base@, #[trigger] ws@[j].0, idx as int);
                &&& v is Value
                &&& apply_cell(v->Value_0, ws@[j].1) is Some
                &&& m@[j] == (ws@[j].0, apply_cell(v->Value_0, ws@[j].1)->Some_0)
            },
            r matches Err(e) ==> e == ParallelBlockExecutionError::CodeInvariantError,
            r is Err ==> exists|j: int| 0 <= j < ws@.len() && ({
                let v = mv_read(mvs@, base@, #[trigger] ws@[j].0, idx as int);
                !(v is Value) || apply_cell(v->Value_0, ws@[j].1) is None
            }),
    {
        let mut olds: Vec<Option<u128>> = Vec::new();
        let mut j: usize = 0;
        while j < ws.len()
            invariant
                mvs.wf(),
                base.wf(),
                idx <= mvs@.len(),
                mvs@.len() <= u32::MAX,
                j <= ws@.len(),
                olds@.len() == j,
                forall|i: int| 0 <= i < j ==> #[trigger] mv_read(mvs@, base@, ws@[i].0, idx as int) == ReadResult::Value(olds@[i]),
            decreases ws@.len() - j,
        {
            match mvs.read(ws[j].0, idx, base) {
                ReadResult::Value(v) => olds.push(v),
                _ => {
                    assert(!(mv_read(mvs@, base@, ws@[j as int].0, idx as int) is Value));
                    return Err(ParallelBlockExecutionError::CodeInvariantError);
                },
            }
            j = j + 1;
        }
        match apply_writes(ws, &olds) {
            Some(m) => {
                proof {
                    assert forall|j: int| 0 <= j < ws@.len() implies {
                        let v = mv_read(mvs@, base@, #[trigger] ws@[j].0, idx as int);
                        &&& v is Value
                        &&& apply_cell(v->Value_0, ws@[j].1) is Some
                        &&& m@[j] == (ws@[j].0, apply_cell(v->Value_0, ws@[j].1)->Some_0)
                    } by {
                        assert(mv_read(mvs@, base@, ws@[j].0, idx as int) == ReadResult::Value(olds@[j]));
                        assert(apply_cell(olds@[j], ws@[j].1) is Some);
                    }
                }
                Ok(m)
            },
            None => {
                proof {
                    let j = choose|j: int| 0 <= j < ws@.len() && !((#[trigger] apply_cell(olds@[j], ws@[j].1)) is Some);
                    assert(mv_read(mvs@, base@, ws@[j].0, idx as int) == ReadResult::Value(olds@[j]));
                }
                Err(ParallelBlockExecutionError::CodeInvariantError)
            },
        }
    }
}

} // verus!

verus! {

/// The error that a parallel run reports for a block whose sequential
/// execution fails with `e`.
pub open spec fn parallel_error_of(e: BlockExecutionError) -> ParallelBlockExecutionError {
    match e {
        BlockExecutionError::FatalVMError(i) => ParallelBlockExecutionError::FatalVMError(i),
        _ => ParallelBlockExecutionError::CodeInvariantError,
    }
}

/// The failures that a parallel run may report: a transaction that reads
/// and writes modules, or the failure of sequential execution.
pub open spec fn parallel_error_ok(block: Seq<Transaction>, base: Map<StateKey, u128>, limit: BlockGasLimitType, e: ParallelBlockExecutionError) -> bool {
    ||| e == ParallelBlockExecutionError::ModulePathReadWriteError && block_has_module_rw(block)
    ||| sequential_block(block, base, limit) is Err && e == parallel_error_of(sequential_block(block, base, limit)->Err_0)
}

/// The failures that committing transaction `c` may report: it reads and
/// writes modules, or sequential execution fails at it.
pub open spec fn commit_error(block: Seq<Transaction>, base: Map<StateKey, u128>, limit: BlockGasLimitType, c: int, e: ParallelBlockExecutionError) -> bool {
    ||| e == ParallelBlockExecutionError::ModulePathReadWriteError && reads_and_writes_module(block[c].ops@)
    ||| seq_run(block, base, limit, (c + 1) as nat).err is Some
        && e == parallel_error_of(seq_run(block, base, limit, (c + 1) as nat).err->Some_0)
}

/// Stores that agree below `i` give a reader at `i` the same view.
proof fn lemma_read_agree(w1: Seq<Map<StateKey, MvEntry>>, w2: Seq<Map<StateKey, MvEntry>>, base: Map<StateKey, u128>, k: StateKey, i: int)
    requires
        w1.len() == w2.len(),
        0 <= i <= w1.len(),
        forall|j: int| 0 <= j < i ==> #[trigger] w1[j] == w2[j],
    ensures
        mv_read(w1, base, k, i) == mv_read(w2, base, k, i),
    decreases i,
{
    if i > 0 {
        lemma_read_agree(w1, w2, base, k, i - 1);
    }
}

impl BlockExecutor {
    /// Materializes the validated execution of `c`, which the scheduler has
    /// just committed: applies its increments, finalizes its groups,
    /// publishes its output, leaves its final entries in the store and
    /// charges its fee. A transaction whose groups cannot be serialized is
    /// discarded. Returns whether the block ends after it.
    fn materialize_txn_commit(
        &self,
        c: usize,
        block: &Vec<Transaction>,
        st: &mut ParallelState,
        base: &BaseView,
    ) -> (r: Result<bool, ParallelBlockExecutionError>)
        requires
            old(st).inv_core(block@, base@, self.config.block_gas_limit_type, c as int),
            base.wf(),
            c < block@.len(),
            !seq_run(block@, base@, self.config.block_gas_limit_type, c as nat).stopped,
            old(st).last_input_output@[c as int] is Some,
            reads_current(old(st).last_input_output@[c as int]->Some_0, block@[c as int], old(st).versioned_cache@, base@, c as int),
        ensures
            r matches Ok(stop) ==> final(st).inv_core(block@, base@, self.config.block_gas_limit_type, c + 1)
                && stop == seq_run(block@, base@, self.config.block_gas_limit_type, (c + 1) as nat).stopped,
            final(st).scheduler@ == old(st).scheduler@,
            final(st).last_input_output@ == old(st).last_input_output@,
            r is Err <==> seq_run(block@, base@, self.config.block_gas_limit_type, (c + 1) as nat).err is Some,
            r matches Err(e) ==> e == parallel_error_of(seq_run(block@, base@, self.config.block_gas_limit_type, (c + 1) as nat).err->Some_0),
            r matches Err(e) ==> parallel_error_ok(block@, base@, self.config.block_gas_limit_type, e),
    {
        let ghost limit = self.config.block_gas_limit_type;
        let ghost s = seq_run(block@, base@, limit, c as nat);
        let ghost w0 = st.versioned_cache@;
        let n = block.len();
        let rec = match &st.last_input_output[c] {
            Some(r) => r,
            None => {
                return Err(ParallelBlockExecutionError::CodeInvariantError);
            },
        };
        proof {
            lemma_answers_sequential(block@, base@, limit, w0, c as int, *rec);
            assert(record_ok(*rec, block@[c as int]));
            assert(rec.effect@ == effect_in(block@[c as int], s.ov, base@));
            assert(seq_run(block@, base@, limit, (c + 1) as nat) == seq_step(block@, base@, limit, s, c as int));
        }
        match rec.effect.status {
            ExecutionStatus::Abort => {
                proof {
                    lemma_seq_run_stable(block@, base@, limit, (c + 1) as nat, n as nat);
                }
                return Err(ParallelBlockExecutionError::FatalVMError(c as u32));
            },
            ExecutionStatus::DeltaApplicationFailure => {
                proof {
                    lemma_seq_run_stable(block@, base@, limit, (c + 1) as nat, n as nat);
                }
                return Err(ParallelBlockExecutionError::CodeInvariantError);
            },
            _ => {},
        }
        let mat = match Self::materialize_aggregator_v1_delta_writes(c, &rec.effect.writes, &st.versioned_cache, base) {
            Ok(m) => m,
            Err(e) => {
                proof {
                    let ws = rec.effect.writes@;
                    let j = choose|j: int| 0 <= j < ws.len() && ({
                        let v = mv_read(w0, base@, #[trigger] ws[j].0, c as int);
                        !(v is Value) || apply_cell(v->Value_0, ws[j].1) is None
                    });
                    lemma_committed_reads(block@, base@, limit, w0, c as int, ws[j].0);
                    crate::assoc::lemma_to_map_at(ws, j);
                    assert(!applies(s.ov, base@, rec.effect@.writes));
                    lemma_seq_run_stable(block@, base@, limit, (c + 1) as nat, n as nat);
                }
                return Err(e);
            },
        };
        proof {
            let ws = rec.effect.writes@;
            let olds = Seq::new(ws.len(), |j: int| sval(s.ov, base@, ws[j].0));
            assert forall|j: int| 0 <= j < ws.len() implies #[trigger] olds[j] == sval(s.ov, base@, ws[j].0) by {}
            assert forall|j: int| 0 <= j < ws.len() implies (#[trigger] mat@[j]) == (ws[j].0, apply_cell(olds[j], ws[j].1)->Some_0)
                && apply_cell(olds[j], ws[j].1) is Some by {
                lemma_committed_reads(block@, base@, limit, w0, c as int, ws[j].0);
                assert(mv_read(w0, base@, ws[j].0, c as int) is Value);
            }
            lemma_materialized(ws, olds, s.ov, base@);
            assert(applies(s.ov, base@, rec.effect@.writes));
            assert(to_map(mat@) == materialized(s.ov, base@, rec.effect@.writes));
        }
        let must_skip = rec.effect.status == ExecutionStatus::SkipRest;
        st.versioned_cache.write(c, &rec.effect.writes);
        let ghost after = s.ov.union_prefer_right(materialized(s.ov, base@, rec.effect@.writes));
        let mut cands: Vec<StateKey> = Vec::new();
        base.append_keys(&mut cands);
        let ghost c1 = cands@;
        st.versioned_cache.append_keys_below(c + 1, &mut cands);
        proof {
            assert(st.versioned_cache@ == w0.update(c as int, entries_of(rec.effect@.writes)));
            assert forall|k: StateKey| (#[trigger] sval(after, base@, k)) is Some implies exists|i: int| 0 <= i < cands@.len() && cands@[i] == k by {
                if rec.effect@.writes.contains_key(k) {
                    assert(st.versioned_cache@[c as int].contains_key(k));
                } else if s.ov.contains_key(k) {
                    lemma_ov_dom(block@, base@, limit, w0, c as int, k);
                    let j = choose|j: int| 0 <= j < c && (#[trigger] w0[j]).contains_key(k);
                    assert(st.versioned_cache@[j].contains_key(k));
                } else {
                    assert(base@.contains_key(k));
                    let i = choose|i: int| 0 <= i < c1.len() && c1[i] == k;
                    assert(cands@[i] == k);
                }
            }
        }
        let mut vals: Vec<Option<u128>> = Vec::new();
        let mut i: usize = 0;
        while i < cands.len()
            invariant
                i <= cands@.len(),
                vals@.len() == i,
                st.versioned_cache.wf(),
                base.wf(),
                c < st.versioned_cache@.len() <= u32::MAX,
                c < block@.len(),
                w0.len() == st.versioned_cache@.len(),
                st.versioned_cache@ == w0.update(c as int, entries_of(rec.effect@.writes)),
                committed_below(block@, base@, limit, w0, c as int),
                s == seq_run(block@, base@, limit, c as nat),
                rec.effect@ == effect_in(block@[c as int], s.ov, base@),
                applies(s.ov, base@, rec.effect@.writes),
                after == s.ov.union_prefer_right(materialized(s.ov, base@, rec.effect@.writes)),
                forall|j: int| 0 <= j < i ==> #[trigger] vals@[j] == state_fn(after, base@)(cands@[j]),
            decreases cands@.len() - i,
        {
            proof {
                lemma_read_after_commit(block@, base@, limit, w0, c as int, cands@[i as int]);
            }
            match st.versioned_cache.read(cands[i], c + 1, base) {
                ReadResult::Value(v) => vals.push(v),
                _ => {
                    return Err(ParallelBlockExecutionError::CodeInvariantError);
                },
            }
            i = i + 1;
        }
        let fee = block[c].gas;
        let approx = approx_output_size(&block[c], &rec.effect, self.config.block_gas_limit_type);
        proof {
            assert(st.gas + fee <= (c + 1) * (u64::MAX as int)) by (nonlinear_arith)
                requires
                    st.gas <= c * (u64::MAX as int),
                    fee <= u64::MAX,
            ;
            assert(st.output_size + approx <= (c + 1) * SIZE_BOUND) by (nonlinear_arith)
                requires
                    st.output_size <= c * SIZE_BOUND,
                    approx <= SIZE_BOUND,
            ;
        }
        match output_groups(&rec.effect.writes, &cands, &vals, Ghost(state_fn(after, base@))) {
            Some(groups) => {
                let out = committed_output(copy_values(&rec.effect.observed), &mat, groups);
                st.final_results.push(out);
                st.gas = st.gas + fee as u128;
                st.output_size = st.output_size + approx;
                let ends = limit_reached(self.config.block_gas_limit_type, st.gas, st.output_size, c, n);
                proof {
                    let s1 = seq_run(block@, base@, limit, (c + 1) as nat);
                    assert(commits_at(block@, base@, limit, c as int));
                    assert(outputs_view(st.final_results@) =~= s1.outs);
                    assert forall|j: int| 0 <= j < c + 1 implies #[trigger] st.versioned_cache@[j] == committed_entries(block@, base@, limit, j) by {
                        if j < c {
                            assert(st.versioned_cache@[j] == w0[j]);
                        }
                    }
                    assert forall|j: int| 0 <= j < c + 1 implies #[trigger] runs_at(block@, base@, limit, j) by {
                        if j < c {
                            assert(committed_below(block@, base@, limit, w0, c as int));
                        }
                    }
                    assert(committed_below(block@, base@, limit, st.versioned_cache@, c + 1));
                }
                Ok(must_skip || ends)
            },
            None => {
                let no_writes: Vec<(StateKey, Cell)> = Vec::new();
                st.versioned_cache.write(c, &no_writes);
                st.final_results.push(discard_output(DiscardCode::DelayedMaterializationCodeInvariantError));
                st.gas = st.gas + fee as u128;
                st.output_size = st.output_size + approx;
                proof {
                    let s1 = seq_run(block@, base@, limit, (c + 1) as nat);
                    assert(!commits_at(block@, base@, limit, c as int));
                    assert(entries_of(to_map(no_writes@)) =~= Map::<StateKey, MvEntry>::empty());
                    assert(outputs_view(st.final_results@) =~= s1.outs);
                    assert forall|j: int| 0 <= j < c + 1 implies #[trigger] st.versioned_cache@[j] == committed_entries(block@, base@, limit, j) by {
                        if j < c {
                            assert(st.versioned_cache@[j] == w0[j]);
                        }
                    }
                    assert forall|j: int| 0 <= j < c + 1 implies #[trigger] runs_at(block@, base@, limit, j) by {
                        if j < c {
                            assert(committed_below(block@, base@, limit, w0, c as int));
                        }
                    }
                    assert(committed_below(block@, base@, limit, st.versioned_cache@, c + 1));
                }
                Ok(false)
            },
        }
    }

    /// Commits `c`, which the scheduler has just marked committed: checks
    /// its reads, executes it once more in place (as incarnation `next`)
    /// where they no longer hold, then materializes it. Returns whether the
    /// block ends after it.
    fn commit_txn(
        &self,
        c: usize,
        next: Incarnation,
        block: &Vec<Transaction>,
        st: &mut ParallelState,
        base: &BaseView,
    ) -> (r: Result<bool, ParallelBlockExecutionError>)
        requires
            old(st).inv_core(block@, base@, self.config.block_gas_limit_type, c as int),
            base.wf(),
            c < block@.len(),
            !seq_run(block@, base@, self.config.block_gas_limit_type, c as nat).stopped,
        ensures
            r matches Ok(stop) ==> final(st).inv_core(block@, base@, self.config.block_gas_limit_type, c + 1)
                && stop == seq_run(block@, base@, self.config.block_gas_limit_type, (c + 1) as nat).stopped,
            final(st).scheduler@ == old(st).scheduler@,
            r is Ok ==> if old(st).last_input_output@[c as int] is Some && reads_current(
                old(st).last_input_output@[c as int]->Some_0, block@[c as int], old(st).versioned_cache@, base@, c as int) {
                final(st).last_input_output@ == old(st).last_input_output@
            } else {
                &&& final(st).last_input_output@[c as int] is Some
                &&& final(st).last_input_output@[c as int]->Some_0.incarnation == next
                &&& forall|j: int| 0 <= j < block@.len() && j != c
                    ==> #[trigger] final(st).last_input_output@[j] == old(st).last_input_output@[j]
            },
            r matches Err(e) ==> commit_error(block@, base@, self.config.block_gas_limit_type, c as int, e),
            !reads_and_writes_module(block@[c as int].ops@)
                ==> (r is Err <==> seq_run(block@, base@, self.config.block_gas_limit_type, (c + 1) as nat).err is Some),
            r matches Err(e) ==> parallel_error_ok(block@, base@, self.config.block_gas_limit_type, e),
    {
        let ghost limit = self.config.block_gas_limit_type;
        if !Self::validate_commit_ready(c, block, st, base, Ghost(limit), Ghost(c as int)) {
            Self::update_transaction_on_abort(c, st, Ghost(block@), Ghost(base@), Ghost(limit), Ghost(c as int));
            let ghost w1 = st.versioned_cache@;
            match Self::execute(c, next, block, st, base, Ghost(limit), Ghost(c as int)) {
                Ok(ExecutionOutcome::Executed(_)) => {
                    proof {
                        let rec = st.last_input_output@[c as int]->Some_0;
                        let keys = read_keys(block@[c as int].ops@);
                        if rec.read_failed {
                            let x = choose|x: int| 0 <= x < keys.len() && !(#[trigger] mv_read(w1, base@, keys[x], c as int) is Value);
                            lemma_committed_reads(block@, base@, limit, w1, c as int, keys[x]);
                        }
                        assert forall|x: int| 0 <= x < rec.answers@.len() implies #[trigger] mv_read(st.versioned_cache@, base@, keys[x], c as int) == ReadResult::Value(rec.answers@[x]) by {
                            lemma_read_agree(w1, st.versioned_cache@, base@, keys[x], c as int);
                        }
                    }
                },
                Ok(ExecutionOutcome::Dependency(_)) => {
                    proof {
                        let keys = read_keys(block@[c as int].ops@);
                        let x = choose|x: int| 0 <= x < keys.len() && !(#[trigger] mv_read(w1, base@, keys[x], c as int) is Value);
                        lemma_committed_reads(block@, base@, limit, w1, c as int, keys[x]);
                    }
                    return Err(ParallelBlockExecutionError::CodeInvariantError);
                },
                Err(e) => {
                    return Err(e);
                },
            }
        }
        self.materialize_txn_commit(c, block, st, base)
    }

    /// Commits, in index order, every transaction that the scheduler finds
    /// ready. Halts the scheduler when the block is complete.
    fn prepare_and_queue_commit_ready_txns(&self, block: &Vec<Transaction>, st: &mut ParallelState, base: &BaseView) -> (r: Result<(), ParallelBlockExecutionError>)
        requires
            old(st).inv(block@, base@, self.config.block_gas_limit_type),
            base.wf(),
        ensures
            r is Ok ==> final(st).inv(block@, base@, self.config.block_gas_limit_type),
            r is Ok ==> !commit_ready(final(st).scheduler@),
            final(st).scheduler@.commit_idx >= old(st).scheduler@.commit_idx,
            r matches Err(e) ==> final(st).scheduler@.commit_idx >= 1
                && commit_error(block@, base@, self.config.block_gas_limit_type, final(st).scheduler@.commit_idx - 1, e),
            r matches Err(e) ==> parallel_error_ok(block@, base@, self.config.block_gas_limit_type, e),
    {
        let ghost limit = self.config.block_gas_limit_type;
        let ghost c0 = st.scheduler@.commit_idx;
        let n = block.len();
        loop
            invariant
                st.inv(block@, base@, limit),
                st.scheduler@.commit_idx >= c0,
                c0 == old(st).scheduler@.commit_idx,
                base.wf(),
                limit == self.config.block_gas_limit_type,
                n == block@.len(),
            decreases n - st.scheduler@.commit_idx,
        {
            let (c, inc) = match st.scheduler.try_commit() {
                None => {
                    return Ok(());
                },
                Some((c, inc)) => (c as usize, inc),
            };
            let next = if inc < u32::MAX {
                inc + 1
            } else {
                inc
            };
            let stop = match self.commit_txn(c, next, block, st, base) {
                Ok(stop) => stop,
                Err(e) => {
                    return Err(e);
                },
            };
            if c + 1 == n || stop {
                st.scheduler.halt();
                return Ok(());
            }
        }
    }
}

} // verus!

verus! {

/// How many worker steps may pass without the commit pointer moving
/// before the transaction at the pointer is committed in place.
pub open spec fn stall_budget(n: nat) -> u64 {
    if n <= u32::MAX {
        (64 + 32 * n) as u64
    } else {
        u64::MAX
    }
}

fn worker_stall_budget(n: usize) -> (r: u64)
    ensures
        r == stall_budget(n as nat),
{
    if n <= u32::MAX as usize {
        64 + 32 * (n as u64)
    } else {
        u64::MAX
    }
}

/// Relies on `num_cpus::get`: the number of CPUs available to this
/// process, documented to be at least 1.
#[verifier::external_body]
fn available_cpus() -> (r: usize)
    ensures
        r >= 1,
{
    num_cpus::get()
}

/// The status with which a block that failed with `e` is discarded.
pub open spec fn discard_code(e: BlockExecutionError) -> DiscardCode {
    match e {
        BlockExecutionError::FatalVMError(_) => DiscardCode::UnknownInvariantViolationError,
        _ => DiscardCode::DelayedMaterializationCodeInvariantError,
    }
}

/// What a block yields given the result of sequential execution: that
/// result, or, where it failed and the configuration says so, every output
/// discarded.
pub open spec fn block_result(
    seq: Result<Seq<OutputModel>, BlockExecutionError>,
    discard_failed_blocks: bool,
    n: nat,
) -> Result<Seq<OutputModel>, BlockExecutionError> {
    match seq {
        Ok(v) => Ok(v),
        Err(e) => if discard_failed_blocks {
            Ok(Seq::new(n, |i: int| discard_model(discard_code(e))))
        } else {
            Err(e)
        },
    }
}

/// Whether `level` workers may run on `cpus` CPUs.
pub open spec fn level_allowed(level: usize, cpus: usize) -> bool {
    1 <= level <= cpus
}

/// Whether some output of a block result is discarded.
pub open spec fn discards_some(res: Result<Seq<OutputModel>, BlockExecutionError>) -> bool {
    res is Ok && exists|i: int| 0 <= i < res->Ok_0.len() && (#[trigger] res->Ok_0[i]).kind is Discarded
}

/// Whether some output is discarded.
fn has_discarded(v: &Vec<TransactionOutput>) -> (r: bool)
    ensures
        r == exists|i: int| 0 <= i < v@.len() && (#[trigger] outputs_view(v@)[i]).kind is Discarded,
{
    let mut i: usize = 0;
    while i < v.len()
        invariant
            i <= v@.len(),
            forall|j: int| 0 <= j < i ==> !((#[trigger] outputs_view(v@)[j]).kind is Discarded),
        decreases v@.len() - i,
    {
        if let OutputKind::Discarded(_) = v[i].kind {
            assert(outputs_view(v@)[i as int].kind is Discarded);
            return true;
        }
        i = i + 1;
    }
    false
}

/// Appends skipped outputs to `v` up to length `n`.
fn pad_with_skips(v: &mut Vec<TransactionOutput>, n: usize)
    requires
        old(v)@.len() <= n,
    ensures
        outputs_view(final(v)@) == outputs_view(old(v)@) + Seq::new((n - old(v)@.len()) as nat, |i: int| skip_model()),
{
    let ghost start = outputs_view(v@);
    let ghost done = v@.len();
    assert(outputs_view(v@) =~= start + Seq::new(0, |i: int| skip_model()));
    while v.len() < n
        invariant
            done <= v@.len() <= n,
            outputs_view(v@) == start + Seq::new((v@.len() - done) as nat, |i: int| skip_model()),
        decreases n - v@.len(),
    {
        let ghost before = outputs_view(v@);
        v.push(skip_output());
        proof {
            let m = (v@.len() - done) as nat;
            assert(outputs_view(v@) =~= before.push(skip_model()));
            assert(start + Seq::new(m, |i: int| skip_model()) =~= (start + Seq::new((m - 1) as nat, |i: int| skip_model())).push(skip_model()));
        }
    }
}

impl BlockExecutor {
    /// An executor for `config`; `None` unless the concurrency level is
    /// between 1 and the number of CPUs available to this process. A level
    /// out of range is reported as `None` rather than by a panic.
    pub fn new(config: BlockExecutorConfig) -> (r: Option<BlockExecutor>)
        ensures
            r matches Some(e) ==> e.config == config,
            exists|cpus: usize| cpus >= 1 && (r is Some <==> #[trigger] level_allowed(config.concurrency_level, cpus)),
            config.concurrency_level == 0 ==> r is None,
            config.concurrency_level == 1 ==> r is Some,
    {
        let cpus = available_cpus();
        let r = Self::new_with_cpus(config, cpus);
        assert(cpus >= 1 && (r is Some <==> level_allowed(config.concurrency_level, cpus)));
        r
    }

    /// An executor for `config` on a machine with `cpus` CPUs: `None`
    /// unless the concurrency level is between 1 and `cpus`.
    pub fn new_with_cpus(config: BlockExecutorConfig, cpus: usize) -> (r: Option<BlockExecutor>)
        ensures
            r is Some <==> level_allowed(config.concurrency_level, cpus),
            r matches Some(e) ==> e.config == config,
    {
        if config.concurrency_level > 0 && config.concurrency_level <= cpus {
            Some(BlockExecutor { config })
        } else {
            None
        }
    }

    /// Runs the workers, one task of one worker per step, the worker of
    /// step `i` being `choices[i]` (modulo their number) and then each in
    /// turn, until the scheduler halts. Where the commit pointer has not
    /// moved for `stall_budget` steps, the transaction at the pointer is
    /// committed in place.
    fn worker_loop(
        &self,
        block: &Vec<Transaction>,
        st: &mut ParallelState,
        base: &BaseView,
        workers: &mut Vec<SchedulerTask>,
        choices: &Vec<usize>,
    ) -> (r: Result<(), ParallelBlockExecutionError>)
        requires
            old(st).inv(block@, base@, self.config.block_gas_limit_type),
            base.wf(),
            old(workers)@.len() > 0,
        ensures
            r is Ok ==> final(st).inv(block@, base@, self.config.block_gas_limit_type),
            r is Ok ==> final(st).scheduler@.halted,
            r matches Err(e) ==> parallel_error_ok(block@, base@, self.config.block_gas_limit_type, e),
    {
        let ghost limit = self.config.block_gas_limit_type;
        let n = block.len();
        let k = workers.len();
        let stall = worker_stall_budget(n);
        let mut idle: u64 = 0;
        let mut turn: usize = 0;
        loop
            invariant
                st.inv(block@, base@, limit),
                limit == self.config.block_gas_limit_type,
                base.wf(),
                n == block@.len(),
                k == workers@.len(),
                k > 0,
                stall == stall_budget(n as nat),
                idle <= stall,
            decreases n - st.scheduler@.commit_idx, stall - idle,
        {
            if st.scheduler.is_halted() {
                return Ok(());
            }
            if idle >= stall {
                match self.commit_in_place(block, st, base) {
                    Ok(()) => {},
                    Err(e) => {
                        return Err(e);
                    },
                }
                idle = 0;
            } else {
                let c0 = st.scheduler.commit_idx();
                if st.scheduler.should_coordinate_commits() {
                    match self.prepare_and_queue_commit_ready_txns(block, st, base) {
                        Ok(()) => {},
                        Err(e) => {
                            return Err(e);
                        },
                    }
                }
                let w = if turn < choices.len() {
                    choices[turn] % k
                } else {
                    turn % k
                };
                let ghost c = st.scheduler@.commit_idx as int;
                let next = match workers[w] {
                    SchedulerTask::ValidationTask(i, inc, wave) => {
                        let i = i as usize;
                        if i < n {
                            let valid = Self::validate(i, block, st, base, Ghost(limit), Ghost(c));
                            match Self::update_on_validation(i, inc, valid, wave, st, Ghost(block@), Ghost(base@), Ghost(limit)) {
                                Ok(t) => t,
                                // Incarnations of `i` are exhausted: it stays
                                // aborting until it is committed in place.
                                Err(_) => SchedulerTask::NoTask,
                            }
                        } else {
                            SchedulerTask::NoTask
                        }
                    },
                    SchedulerTask::ExecutionTask(i, inc) => {
                        let i = i as usize;
                        if i < n && st.scheduler.status(i) == TxnState::Executing(inc) {
                            proof {
                                st.scheduler.lemma_wf();
                            }
                            match Self::execute(i, inc, block, st, base, Ghost(limit), Ghost(c)) {
                                Ok(ExecutionOutcome::Executed(updates_outside)) => st.scheduler.finish_execution(i, inc, updates_outside),
                                Ok(ExecutionOutcome::Dependency(d)) => {
                                    st.scheduler.suspend(i, inc, d);
                                    SchedulerTask::NoTask
                                },
                                Err(e) => {
                                    proof {
                                        assert(reads_and_writes_module(block@[i as int].ops@));
                                        assert(block_has_module_rw(block@));
                                    }
                                    return Err(e);
                                },
                            }
                        } else {
                            SchedulerTask::NoTask
                        }
                    },
                    SchedulerTask::NoTask => st.scheduler.next_task(),
                    SchedulerTask::Done => SchedulerTask::Done,
                };
                workers.set(w, next);
                turn = if turn < usize::MAX {
                    turn + 1
                } else {
                    0
                };
                if st.scheduler.commit_idx() > c0 {
                    idle = 0;
                } else {
                    idle = idle + 1;
                }
            }
        }
    }

    /// Commits the transaction at the commit pointer in place, whatever
    /// its state: its reads are checked and, where they no longer hold, it
    /// is executed once more as its next incarnation.
    fn commit_in_place(&self, block: &Vec<Transaction>, st: &mut ParallelState, base: &BaseView) -> (r: Result<(), ParallelBlockExecutionError>)
        requires
            old(st).inv(block@, base@, self.config.block_gas_limit_type),
            !old(st).scheduler@.halted,
            base.wf(),
        ensures
            r is Ok ==> final(st).inv(block@, base@, self.config.block_gas_limit_type),
            r is Ok ==> final(st).scheduler@.commit_idx == old(st).scheduler@.commit_idx + 1,
            r matches Err(e) ==> parallel_error_ok(block@, base@, self.config.block_gas_limit_type, e),
    {
        let n = block.len();
        let next = match st.scheduler.status(st.scheduler.commit_idx()) {
            TxnState::Executed(i) | TxnState::Aborting(i) | TxnState::Committed(i) => if i < u32::MAX {
                i + 1
            } else {
                i
            },
            TxnState::ReadyToExecute(i) | TxnState::Executing(i) | TxnState::Suspended(i, _) => i,
        };
        let (c, _) = st.scheduler.force_commit();
        let c = c as usize;
        let stop = match self.commit_txn(c, next, block, st, base) {
            Ok(stop) => stop,
            Err(e) => {
                return Err(e);
            },
        };
        if c + 1 == n || stop {
            st.scheduler.halt();
        }
        Ok(())
    }

    /// Executes `block` in parallel with `concurrency_level` workers
    /// interleaved as `choices` says, within a step budget; what is not
    /// committed then is committed in place. Whatever the interleaving, the
    /// outputs are exactly those of sequential execution, and the run fails
    /// only where sequential execution fails or a transaction both reads and
    /// writes modules.
    pub fn execute_transactions_parallel<L: TransactionCommitHook>(
        &self,
        block: &Vec<Transaction>,
        base: &BaseView,
        choices: &Vec<usize>,
        hook: &mut L,
    ) -> (r: Result<Vec<TransactionOutput>, ParallelBlockExecutionError>)
        requires
            base.wf(),
            block@.len() <= u32::MAX,
            self.config.concurrency_level > 1,
        ensures
            r is Ok ==> final(hook).committed() == old(hook).committed() + committed_indices(seq_run(block@, base@, self.config.block_gas_limit_type, block@.len()).outs),
            r is Err ==> final(hook).committed() == old(hook).committed(),
            final(hook).aborted() == old(hook).aborted(),
            r matches Ok(v) ==> sequential_block(block@, base@, self.config.block_gas_limit_type) == Ok::<Seq<OutputModel>, BlockExecutionError>(outputs_view(v@)),
            r matches Ok(v) ==> v@.len() == block@.len(),
            r matches Err(e) ==> parallel_error_ok(block@, base@, self.config.block_gas_limit_type, e),
            !block_has_module_rw(block@) ==> (r is Ok <==> sequential_block(block@, base@, self.config.block_gas_limit_type) is Ok),
    {
        let ghost limit = self.config.block_gas_limit_type;
        let n = block.len();
        if n == 0 {
            let v: Vec<TransactionOutput> = Vec::new();
            proof {
                assert(old(hook).committed() + committed_indices(seq_run(block@, base@, limit, 0).outs) =~= old(hook).committed());
                assert(outputs_view(v@) =~= Seq::<OutputModel>::empty());
                assert(seq_run(block@, base@, limit, 0).outs + Seq::new(0, |i: int| skip_model()) =~= Seq::<OutputModel>::empty());
            }
            return Ok(v);
        }
        let mut last_input_output: Vec<Option<TxnRecord>> = Vec::new();
        let mut i: usize = 0;
        while i < n
            invariant
                i <= n,
                last_input_output@.len() == i,
                forall|j: int| 0 <= j < i ==> (#[trigger] last_input_output@[j]) is None,
            decreases n - i,
        {
            last_input_output.push(None);
            i = i + 1;
        }
        let mut st = ParallelState {
            versioned_cache: VersionedData::new(n),
            last_input_output,
            scheduler: Scheduler::new(n),
            final_results: Vec::new(),
            gas: 0,
            output_size: 0,
        };
        proof {
            assert(outputs_view(st.final_results@) =~= Seq::<OutputModel>::empty());
            assert(committed_below(block@, base@, limit, st.versioned_cache@, 0));
        }
        let mut workers: Vec<SchedulerTask> = Vec::new();
        let mut j: usize = 0;
        while j < self.config.concurrency_level
            invariant
                workers@.len() == j,
            decreases self.config.concurrency_level - j,
        {
            workers.push(SchedulerTask::NoTask);
            j = j + 1;
        }
        match self.worker_loop(block, &mut st, base, &mut workers, choices) {
            Ok(()) => {},
            Err(e) => {
                return Err(e);
            },
        }
        let ghost c = st.scheduler@.commit_idx;
        proof {
            if c < n {
                lemma_seq_run_stable(block@, base@, limit, c, n as nat);
            }
        }
        let mut results = st.final_results;
        let committed = results.len();
        let ghost h0 = hook.committed();
        let mut j: usize = 0;
        while j < committed
            invariant
                j <= committed == results@.len(),
                committed <= u32::MAX,
                hook.committed() == h0 + committed_indices(outputs_view(results@).take(j as int)),
                hook.aborted() == old(hook).aborted(),
            decreases committed - j,
        {
            let ghost o = outputs_view(results@);
            if results[j].kind == OutputKind::Committed {
                hook.on_transaction_committed(j as u32, &results[j]);
            }
            proof {
                assert(o.take(j + 1).drop_last() =~= o.take(j as int));
                assert(o.take(j + 1).last() == o[j as int]);
                if o[j as int].kind == OutputKind::Committed {
                    assert(h0 + committed_indices(o.take(j + 1)) =~= (h0 + committed_indices(o.take(j as int))).push(j as u32));
                }
            }
            j = j + 1;
        }
        proof {
            assert(outputs_view(results@).len() == results@.len());
            assert(outputs_view(results@).take(committed as int) =~= outputs_view(results@));
        }
        pad_with_skips(&mut results, n);
        assert(outputs_view(results@).len() == results@.len());
        Ok(results)
    }

    /// Executes `block`: in parallel where the concurrency level is above 1,
    /// then sequentially where that did not complete (if fallback is
    /// allowed). A failed block is an error, or every output discarded where
    /// the configuration says so. Where fallback is forbidden, a parallel
    /// run that fails, or a block with a transaction discarded because its
    /// group cannot be serialized, gives `FallbackNotAllowed` rather than a
    /// panic.
    pub fn execute_block<L: TransactionCommitHook>(&self, block: &Vec<Transaction>, base: &BaseView, hook: &mut L) -> (r: Result<Vec<TransactionOutput>, BlockExecutionError>)
        requires
            base.wf(),
            block@.len() <= u32::MAX,
        ensures
            ({
                let limit = self.config.block_gas_limit_type;
                let seq = sequential_block(block@, base@, limit);
                let fna = Err::<Vec<TransactionOutput>, _>(BlockExecutionError::FallbackNotAllowed);
                &&& r != fna ==> result_view(r) == block_result(seq, self.config.discard_failed_blocks, block@.len())
                &&& r != fna ==> final(hook).committed() == old(hook).committed() + committed_indices(seq_run(block@, base@, limit, block@.len()).outs)
                &&& r != fna ==> final(hook).aborted() == old(hook).aborted() + failed_indices(seq_run(block@, base@, limit, block@.len()).err)
                &&& r == fna ==> final(hook).aborted() == old(hook).aborted()
                &&& r == fna ==> final(hook).committed() == old(hook).committed()
                    || final(hook).committed() == old(hook).committed() + committed_indices(seq_run(block@, base@, limit, block@.len()).outs)
                &&& !self.config.allow_fallback && discards_some(seq) ==> r == fna
                &&& !self.config.allow_fallback && self.config.concurrency_level > 1 && seq is Err ==> r == fna
                &&& r == fna ==> !self.config.allow_fallback && (discards_some(seq)
                    || self.config.concurrency_level > 1 && (block_has_module_rw(block@) || seq is Err))
            }),
    {
        let ghost limit = self.config.block_gas_limit_type;
        if self.config.concurrency_level > 1 {
            let choices: Vec<usize> = Vec::new();
            match self.execute_transactions_parallel(block, base, &choices, hook) {
                Ok(v) => {
                    proof {
                        assert(old(hook).aborted() + failed_indices(seq_run(block@, base@, limit, block@.len()).err) =~= old(hook).aborted());
                    }
                    if !self.config.allow_fallback && has_discarded(&v) {
                        return Err(BlockExecutionError::FallbackNotAllowed);
                    }
                    return Ok(v);
                },
                Err(_) => {
                    if !self.config.allow_fallback {
                        return Err(BlockExecutionError::FallbackNotAllowed);
                    }
                },
            }
        }
        let seq = self.execute_transactions_sequential(block, base, hook);
        match seq {
            Ok(v) => {
                proof {
                    assert(old(hook).aborted() + failed_indices(seq_run(block@, base@, limit, block@.len()).err) =~= hook.aborted());
                }
                if !self.config.allow_fallback && has_discarded(&v) {
                    return Err(BlockExecutionError::FallbackNotAllowed);
                }
                Ok(v)
            },
            Err(e) => {
                proof {
                    lemma_sequential_errors(block@, base@, self.config.block_gas_limit_type, block@.len());
                }
                if self.config.discard_failed_blocks {
                    let code = match e {
                        BlockExecutionError::FatalVMError(_) => DiscardCode::UnknownInvariantViolationError,
                        _ => DiscardCode::DelayedMaterializationCodeInvariantError,
                    };
                    let n = block.len();
                    let mut ret: Vec<TransactionOutput> = Vec::new();
                    while ret.len() < n
                        invariant
                            ret@.len() <= n,
                            outputs_view(ret@) == Seq::new(ret@.len(), |i: int| discard_model(code)),
                        decreases n - ret@.len(),
                    {
                        let ghost before = outputs_view(ret@);
                        ret.push(discard_output(code));
                        assert(outputs_view(ret@) =~= before.push(discard_model(code)));
                        assert(outputs_view(ret@) =~= Seq::new(ret@.len(), |i: int| discard_model(code)));
                    }
                    Ok(ret)
                } else {
                    Err(e)
                }
            },
        }
    }
}

} // verus!
