//! Sequential execution: one transaction after another over an
//! un-versioned overlay of the base state.
use vstd::prelude::*;
use crate::assoc::{append_keys, get, put, to_map, unique_keys, lemma_to_map_take};
use crate::executor::BlockExecutor;
use crate::limit_processor::{approx_output_size, limit_reached, SIZE_BOUND};
use crate::state::{
    answers, apply_writes, committed_indices, committed_output, discard_output,
    lemma_materialized, lemma_seq_run_stable, materialized, output_groups, outputs_view,
    result_view, seq_run, sequential_block, skip_model, skip_output, sval, BaseView, OutputModel,
    SeqState, failed_indices,
};
use crate::txn_commit_hook::TransactionCommitHook;
use crate::types::{
    BlockExecutionError, Cell, DiscardCode, ExecutionStatus, Op, StateKey, Transaction,
    TransactionOutput,
};
use crate::vm::run_ops;

verus! {

/// The value at `k` of the base overlaid with `ov`.
pub fn overlay_get(ov: &Vec<(StateKey, Option<u128>)>, base: &BaseView, k: StateKey) -> (r: Option<u128>)
    requires
        unique_keys(ov@),
        base.wf(),
    ensures
        r == sval(to_map(ov@), base@, k),
{
    match get(ov, k) {
        Some(v) => v,
        None => base.get(k),
    }
}

/// Reads the keys that `ops` read from the overlay.
fn read_answers(ops: &Vec<Op>, ov: &Vec<(StateKey, Option<u128>)>, base: &BaseView) -> (r: Vec<Option<u128>>)
    requires
        unique_keys(ov@),
        base.wf(),
    ensures
        r@ == answers(ops@, to_map(ov@), base@),
{
    let mut r: Vec<Option<u128>> = Vec::new();
    let mut i: usize = 0;
    while i < ops.len()
        invariant
            i <= ops@.len(),
            unique_keys(ov@),
            base.wf(),
            r@ == answers(ops@.take(i as int), to_map(ov@), base@),
        decreases ops@.len() - i,
    {
        assert(ops@.take(i + 1).drop_last() =~= ops@.take(i as int));
        match ops[i] {
            Op::Read { key } => r.push(overlay_get(ov, base, key)),
            Op::Copy { from, to } => r.push(overlay_get(ov, base, from)),
            _ => {},
        }
        i = i + 1;
        assert(r@ =~= answers(ops@.take(i as int), to_map(ov@), base@));
    }
    assert(ops@.take(ops@.len() as int) =~= ops@);
    r
}

/// The old values of the keys of a write set.
fn old_values(ws: &Vec<(StateKey, Cell)>, ov: &Vec<(StateKey, Option<u128>)>, base: &BaseView) -> (r: Vec<Option<u128>>)
    requires
        unique_keys(ov@),
        base.wf(),
    ensures
        r@.len() == ws@.len(),
        forall|j: int| 0 <= j < ws@.len() ==> #[trigger] r@[j] == sval(to_map(ov@), base@, ws@[j].0),
{
    let mut r: Vec<Option<u128>> = Vec::new();
    let mut j: usize = 0;
    while j < ws.len()
        invariant
            j <= ws@.len(),
            unique_keys(ov@),
            base.wf(),
            r@.len() == j,
            forall|i: int| 0 <= i < j ==> #[trigger] r@[i] == sval(to_map(ov@), base@, ws@[i].0),
        decreases ws@.len() - j,
    {
        r.push(overlay_get(ov, base, ws[j].0));
        j = j + 1;
    }
    r
}

/// Keys that may hold a value once `mat` is written over the overlay, and
/// their values then.
fn state_candidates(ov: &Vec<(StateKey, Option<u128>)>, base: &BaseView, mat: &Vec<(StateKey, Option<u128>)>) -> (r: (Vec<StateKey>, Vec<Option<u128>>))
    requires
        unique_keys(ov@),
        unique_keys(mat@),
        base.wf(),
    ensures
        r.0@.len() == r.1@.len(),
        forall|i: int| 0 <= i < r.0@.len() ==> #[trigger] r.1@[i] == sval(to_map(ov@).union_prefer_right(to_map(mat@)), base@, r.0@[i]),
        forall|k: StateKey| (#[trigger] sval(to_map(ov@).union_prefer_right(to_map(mat@)), base@, k)) is Some ==> exists|i: int| 0 <= i < r.0@.len() && r.0@[i] == k,
{
    let ghost after = to_map(ov@).union_prefer_right(to_map(mat@));
    let mut cands: Vec<StateKey> = Vec::new();
    base.append_keys(&mut cands);
    let ghost c1 = cands@;
    append_keys(ov, &mut cands);
    let ghost c2 = cands@;
    append_keys(mat, &mut cands);
    proof {
        assert forall|k: StateKey| (#[trigger] sval(after, base@, k)) is Some implies exists|i: int| 0 <= i < cands@.len() && cands@[i] == k by {
            if to_map(mat@).contains_key(k) {
            } else if to_map(ov@).contains_key(k) {
                let i = choose|i: int| 0 <= i < c2.len() && c2[i] == k;
                assert(cands@[i] == k);
            } else {
                assert(base@.contains_key(k));
                let i = choose|i: int| 0 <= i < c1.len() && c1[i] == k;
                assert(c2[i] == k);
                assert(cands@[i] == k);
            }
        }
    }
    let mut vals: Vec<Option<u128>> = Vec::new();
    let mut i: usize = 0;
    while i < cands.len()
        invariant
            i <= cands@.len(),
            vals@.len() == i,
            unique_keys(ov@),
            unique_keys(mat@),
            base.wf(),
            after == to_map(ov@).union_prefer_right(to_map(mat@)),
            forall|j: int| 0 <= j < i ==> #[trigger] vals@[j] == sval(after, base@, cands@[j]),
        decreases cands@.len() - i,
    {
        let k = cands[i];
        let v = match get(mat, k) {
            Some(v) => v,
            None => overlay_get(ov, base, k),
        };
        vals.push(v);
        i = i + 1;
    }
    (cands, vals)
}

impl BlockExecutor {
    /// Writes the final values `mat` of a committed transaction into the
    /// overlay.
    pub fn apply_output_sequential(unsync_map: &mut Vec<(StateKey, Option<u128>)>, mat: &Vec<(StateKey, Option<u128>)>)
        requires
            unique_keys(old(unsync_map)@),
        ensures
            unique_keys(final(unsync_map)@),
            to_map(final(unsync_map)@) == to_map(old(unsync_map)@).union_prefer_right(to_map(mat@)),
    {
        let ghost ov0 = to_map(unsync_map@);
        let mut j: usize = 0;
        while j < mat.len()
            invariant
                j <= mat@.len(),
                unique_keys(unsync_map@),
                to_map(unsync_map@) == ov0.union_prefer_right(to_map(mat@.take(j as int))),
            decreases mat@.len() - j,
        {
            let (k, v) = mat[j];
            put(unsync_map, k, v);
            proof {
                lemma_to_map_take(mat@, j as int);
                assert(to_map(unsync_map@) =~= ov0.union_prefer_right(to_map(mat@.take(j + 1))));
            }
            j = j + 1;
        }
        assert(mat@.take(mat@.len() as int) =~= mat@);
    }

    /// Executes `block` one transaction after another: the outputs are those
    /// of `sequential_block`, or its error.
    pub fn execute_transactions_sequential<L: TransactionCommitHook>(&self, block: &Vec<Transaction>, base: &BaseView, hook: &mut L) -> (r: Result<Vec<TransactionOutput>, BlockExecutionError>)
        requires
            base.wf(),
            block@.len() <= u32::MAX,
        ensures
            result_view(r) == sequential_block(block@, base@, self.config.block_gas_limit_type),
            final(hook).committed() == old(hook).committed() + committed_indices(seq_run(block@, base@, self.config.block_gas_limit_type, block@.len()).outs),
            final(hook).aborted() == old(hook).aborted() + failed_indices(seq_run(block@, base@, self.config.block_gas_limit_type, block@.len()).err),
    {
        let ghost h0 = hook.committed();
        let ghost a0 = hook.aborted();
        assert(h0 + committed_indices(Seq::<OutputModel>::empty()) =~= h0);
        let n = block.len();
        let limit = self.config.block_gas_limit_type;
        let mut unsync_map: Vec<(StateKey, Option<u128>)> = Vec::new();
        let mut ret: Vec<TransactionOutput> = Vec::new();
        let mut gas: u128 = 0;
        let mut size: u128 = 0;
        let mut idx: usize = 0;
        let mut stopped = false;
        proof {
            assert(to_map(unsync_map@) =~= Map::empty());
            assert(outputs_view(ret@) =~= Seq::empty());
        }
        while idx < n && !stopped
            invariant
                n == block@.len(),
                n <= u32::MAX,
                limit == self.config.block_gas_limit_type,
                idx <= n,
                base.wf(),
                unique_keys(unsync_map@),
                gas <= idx * (u64::MAX as int),
                size <= idx * SIZE_BOUND,
                ret@.len() == idx,
                hook.committed() == h0 + committed_indices(outputs_view(ret@)),
                h0 == old(hook).committed(),
                a0 == old(hook).aborted(),
                hook.aborted() == a0,
                seq_run(block@, base@, limit, idx as nat) == (SeqState {
                    ov: to_map(unsync_map@),
                    outs: outputs_view(ret@),
                    gas: gas as int,
                    size: size as int,
                    stopped,
                    err: None,
                }),
            decreases n - idx,
        {
            let txn = &block[idx];
            let ghost s = seq_run(block@, base@, limit, idx as nat);
            let answers = read_answers(&txn.ops, &unsync_map, base);
            let effect = run_ops(&txn.ops, &answers);
            assert(seq_run(block@, base@, limit, (idx + 1) as nat) == crate::state::seq_step(block@, base@, limit, s, idx as int));
            assert(effect@ == crate::state::effect_in(block@[idx as int], s.ov, base@));
            match effect.status {
                ExecutionStatus::Abort => {
                    hook.on_execution_aborted(idx as u32);
                    proof {
                        assert(outputs_view(ret@).len() == ret@.len());
                        lemma_seq_run_stable(block@, base@, limit, (idx + 1) as nat, n as nat);
                        assert(seq_run(block@, base@, limit, n as nat).outs == s.outs);
                    }
                    return Err(BlockExecutionError::FatalVMError(idx as u32));
                },
                ExecutionStatus::DeltaApplicationFailure => {
                    hook.on_execution_aborted(idx as u32);
                    proof {
                        assert(outputs_view(ret@).len() == ret@.len());
                        lemma_seq_run_stable(block@, base@, limit, (idx + 1) as nat, n as nat);
                        assert(seq_run(block@, base@, limit, n as nat).outs == s.outs);
                    }
                    return Err(BlockExecutionError::FatalBlockExecutorError(idx as u32));
                },
                _ => {},
            }
            let olds = old_values(&effect.writes, &unsync_map, base);
            proof {
                lemma_materialized(effect.writes@, olds@, to_map(unsync_map@), base@);
            }
            let mat = match apply_writes(&effect.writes, &olds) {
                Some(m) => m,
                None => {
                    hook.on_execution_aborted(idx as u32);
                    proof {
                        assert(outputs_view(ret@).len() == ret@.len());
                        lemma_seq_run_stable(block@, base@, limit, (idx + 1) as nat, n as nat);
                        assert(seq_run(block@, base@, limit, n as nat).outs == s.outs);
                    }
                    return Err(BlockExecutionError::FatalBlockExecutorError(idx as u32));
                },
            };
            let must_skip = effect.status == ExecutionStatus::SkipRest;
            let ghost after = to_map(unsync_map@).union_prefer_right(to_map(mat@));
            let (cands, vals) = state_candidates(&unsync_map, base, &mat);
            proof {
                assert(after == s.ov.union_prefer_right(materialized(s.ov, base@, effect@.writes)));
                assert forall|k: StateKey| #[trigger] crate::state::state_fn(after, base@)(k) == sval(after, base@, k) by {}
            }
            let groups = output_groups(&effect.writes, &cands, &vals, Ghost(crate::state::state_fn(after, base@)));
            let approx = approx_output_size(txn, &effect, limit);
            proof {
                assert(gas + txn.gas <= (idx + 1) * (u64::MAX as int)) by (nonlinear_arith)
                    requires
                        gas <= idx * (u64::MAX as int),
                        txn.gas <= u64::MAX,
                ;
                assert(size + approx <= (idx + 1) * SIZE_BOUND) by (nonlinear_arith)
                    requires
                        size <= idx * SIZE_BOUND,
                        approx <= SIZE_BOUND,
                ;
            }
            match groups {
                Some(groups) => {
                    let out = committed_output(effect.observed, &mat, groups);
                    hook.on_transaction_committed(idx as u32, &out);
                    Self::apply_output_sequential(&mut unsync_map, &mat);
                    ret.push(out);
                    gas = gas + txn.gas as u128;
                    size = size + approx;
                    stopped = must_skip || limit_reached(limit, gas, size, idx, n);
                    proof {
                        assert(h0 + committed_indices(outputs_view(ret@)) =~= (h0 + committed_indices(s.outs)).push(idx as u32)) by {
                            assert(outputs_view(ret@).drop_last() =~= s.outs);
                        }
                    }
                },
                None => {
                    ret.push(discard_output(DiscardCode::DelayedMaterializationCodeInvariantError));
                    gas = gas + txn.gas as u128;
                    size = size + approx;
                    proof {
                        assert(committed_indices(outputs_view(ret@)) =~= committed_indices(s.outs)) by {
                            assert(outputs_view(ret@).drop_last() =~= s.outs);
                        }
                    }
                },
            }
            idx = idx + 1;
            proof {
                assert(outputs_view(ret@) =~= s.outs.push(ret@.last()@));
            }
        }
        proof {
            if idx < n {
                lemma_seq_run_stable(block@, base@, limit, idx as nat, n as nat);
            }
        }
        let ghost done = ret@.len();
        assert(outputs_view(ret@).len() == ret@.len());
        assert(outputs_view(ret@) =~= seq_run(block@, base@, limit, n as nat).outs + Seq::new(0, |i: int| skip_model()));
        while ret.len() < n
            invariant
                n == block@.len(),
                limit == self.config.block_gas_limit_type,
                done <= ret@.len() <= n,
                outputs_view(ret@) == seq_run(block@, base@, limit, n as nat).outs + Seq::new((ret@.len() - done) as nat, |i: int| skip_model()),
            decreases n - ret@.len(),
        {
            let ghost before = outputs_view(ret@);
            ret.push(skip_output());
            proof {
                let outs = seq_run(block@, base@, limit, n as nat).outs;
                let m = (ret@.len() - done) as nat;
                assert(outputs_view(ret@) =~= before.push(skip_model()));
                assert(outs + Seq::new(m, |i: int| skip_model()) =~= (outs + Seq::new((m - 1) as nat, |i: int| skip_model())).push(skip_model()));
            }
        }
        Ok(ret)
    }
}

} // verus!
