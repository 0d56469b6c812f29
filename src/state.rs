//! The base state, the meaning of a write set, and the outputs of a block
//! executed one transaction after another.
use vstd::prelude::*;
use crate::assoc::{append_keys, get, put, put_u64, to_map, unique_keys, lemma_to_map_at, lemma_to_map_dom, lemma_to_map_pointwise};
use crate::codec::serialize_value;
use crate::codec::{bcs_group_bytes, group_entries_view, le_bytes};
use crate::group::{member, members_of};
use crate::types::{
    BlockExecutionError, BlockGasLimitType, Cell, DiscardCode, ExecutionStatus, KeyKind, Op, OutputKind, StateKey, Transaction, TxnIndex,
    TransactionOutput,
};
use crate::vm::{read_keys, run, EffectModel};

verus! {

/// The read-only state that a block starts from.
#[derive(Clone, Debug)]
pub struct BaseView {
    entries: Vec<(StateKey, u128)>,
}

impl View for BaseView {
    type V = Map<StateKey, u128>;

    closed spec fn view(&self) -> Map<StateKey, u128> {
        to_map(self.entries@)
    }
}

impl BaseView {
    pub closed spec fn wf(&self) -> bool {
        unique_keys(self.entries@)
    }

    /// An empty state.
    pub fn new() -> (r: BaseView)
        ensures
            r.wf(),
            r@ == Map::<StateKey, u128>::empty(),
    {
        let r = BaseView { entries: Vec::new() };
        assert(r@ =~= Map::<StateKey, u128>::empty());
        r
    }

    /// Sets `key` to `value`.
    pub fn insert(&mut self, key: StateKey, value: u128)
        requires
            old(self).wf(),
        ensures
            final(self).wf(),
            final(self)@ == old(self)@.insert(key, value),
    {
        put(&mut self.entries, key, value);
    }

    /// Appends the keys that hold a value to `out`.
    pub fn append_keys(&self, out: &mut Vec<StateKey>)
        ensures
            final(out)@.len() >= old(out)@.len(),
            forall|i: int| 0 <= i < old(out)@.len() ==> #[trigger] final(out)@[i] == old(out)@[i],
            forall|k: StateKey| #[trigger] self@.contains_key(k) ==> exists|i: int| 0 <= i < final(out)@.len() && final(out)@[i] == k,
    {
        append_keys(&self.entries, out);
    }

    /// The value at `key`; `None` where the state holds none.
    pub fn get(&self, key: StateKey) -> (r: Option<u128>)
        requires
            self.wf(),
        ensures
            r == base_get(self@, key),
    {
        get(&self.entries, key)
    }
}

pub open spec fn base_get(base: Map<StateKey, u128>, k: StateKey) -> Option<u128> {
    if base.contains_key(k) {
        Some(base[k])
    } else {
        None
    }
}

/// The value at `k` of the base overlaid with `ov`, where `ov` maps a key
/// to `None` when it was deleted.
pub open spec fn sval(ov: Map<StateKey, Option<u128>>, base: Map<StateKey, u128>, k: StateKey) -> Option<u128> {
    if ov.contains_key(k) {
        ov[k]
    } else {
        base_get(base, k)
    }
}

/// The final value that a write-set cell gives a key whose value was `old`;
/// `None` where an increment cannot be applied (no base, or overflow).
pub open spec fn apply_cell(old: Option<u128>, c: Cell) -> Option<Option<u128>> {
    match c {
        Cell::Put(v) => Some(Some(v)),
        Cell::Del => Some(None),
        Cell::Add(d) => match old {
            Some(x) => if x + d <= u128::MAX {
                Some(Some((x + d) as u128))
            } else {
                None
            },
            None => None,
        },
    }
}

/// Whether every cell of `ws` applies to the state.
pub open spec fn applies(ov: Map<StateKey, Option<u128>>, base: Map<StateKey, u128>, ws: Map<StateKey, Cell>) -> bool {
    forall|k: StateKey| #[trigger] ws.contains_key(k) ==> apply_cell(sval(ov, base, k), ws[k]) is Some
}

/// The final values of the keys of `ws` (meaningful where `applies`).
pub open spec fn materialized(ov: Map<StateKey, Option<u128>>, base: Map<StateKey, u128>, ws: Map<StateKey, Cell>) -> Map<StateKey, Option<u128>> {
    Map::new(|k: StateKey| ws.contains_key(k), |k: StateKey| apply_cell(sval(ov, base, k), ws[k])->Some_0)
}

/// The answers that a state gives to the reads of `ops`.
pub open spec fn answers(ops: Seq<Op>, ov: Map<StateKey, Option<u128>>, base: Map<StateKey, u128>) -> Seq<Option<u128>> {
    read_keys(ops).map_values(|k: StateKey| sval(ov, base, k))
}

/// The bytes of an optional value.
pub open spec fn value_bytes(v: Option<u128>) -> Option<Seq<u8>> {
    match v {
        Some(x) => Some(le_bytes(x)),
        None => None,
    }
}

/// The mathematical content of a `TransactionOutput`.
pub struct OutputModel {
    pub kind: OutputKind,
    pub reads: Seq<Option<u128>>,
    pub writes: Map<StateKey, Option<Seq<u8>>>,
    pub groups: Map<u64, Seq<u8>>,
}

pub open spec fn opt_bytes_view(b: Option<Vec<u8>>) -> Option<Seq<u8>> {
    match b {
        Some(v) => Some(v@),
        None => None,
    }
}

impl View for TransactionOutput {
    type V = OutputModel;

    open spec fn view(&self) -> OutputModel {
        OutputModel {
            kind: self.kind,
            reads: self.reads@,
            writes: to_map(self.writes@.map_values(|p: (StateKey, Option<Vec<u8>>)| (p.0, opt_bytes_view(p.1)))),
            groups: group_entries_view(self.groups@),
        }
    }
}

/// The output of a transaction that was not executed.
pub open spec fn skip_model() -> OutputModel {
    OutputModel { kind: OutputKind::Skipped, reads: Seq::empty(), writes: Map::empty(), groups: Map::empty() }
}

/// The output of a discarded transaction.
pub open spec fn discard_model(code: DiscardCode) -> OutputModel {
    OutputModel { kind: OutputKind::Discarded(code), reads: Seq::empty(), writes: Map::empty(), groups: Map::empty() }
}

/// The value of each key in the state `ov` over `base`.
pub open spec fn state_fn(ov: Map<StateKey, Option<u128>>, base: Map<StateKey, u128>) -> spec_fn(StateKey) -> Option<u128> {
    |k: StateKey| sval(ov, base, k)
}

/// The groups that a write set writes a member of.
pub open spec fn touched(ws: Map<StateKey, Cell>, g: u64) -> bool {
    exists|t: u64| #[trigger] ws.contains_key(member(g, t))
}

/// Whether every group that `ws` touches serializes in the state `ov`.
pub open spec fn groups_ok(ov: Map<StateKey, Option<u128>>, base: Map<StateKey, u128>, ws: Map<StateKey, Cell>) -> bool {
    forall|g: u64| touched(ws, g) ==> (#[trigger] bcs_group_bytes(members_of(state_fn(ov, base), g))) is Some
}

/// The serialized groups that `ws` touches, in the state `ov`.
pub open spec fn group_outputs(ov: Map<StateKey, Option<u128>>, base: Map<StateKey, u128>, ws: Map<StateKey, Cell>) -> Map<u64, Seq<u8>> {
    Map::new(|g: u64| touched(ws, g), |g: u64| bcs_group_bytes(members_of(state_fn(ov, base), g))->Some_0)
}

pub open spec fn outputs_view(v: Seq<TransactionOutput>) -> Seq<OutputModel> {
    v.map_values(|o: TransactionOutput| o@)
}

/// A block's outputs as values, or its error.
pub open spec fn result_view(r: Result<Vec<TransactionOutput>, BlockExecutionError>) -> Result<Seq<OutputModel>, BlockExecutionError> {
    match r {
        Ok(v) => Ok(outputs_view(v@)),
        Err(e) => Err(e),
    }
}

/// The state of sequential execution after some transactions.
pub struct SeqState {
    /// What the committed transactions wrote over the base.
    pub ov: Map<StateKey, Option<u128>>,
    pub outs: Seq<OutputModel>,
    /// Fees of the committed transactions.
    pub gas: int,
    /// Approximate output sizes of the committed transactions.
    pub size: int,
    /// The block ended early.
    pub stopped: bool,
    pub err: Option<BlockExecutionError>,
}

/// The effect of transaction `t` run against the state `ov` over `base`.
pub open spec fn effect_in(t: Transaction, ov: Map<StateKey, Option<u128>>, base: Map<StateKey, u128>) -> EffectModel {
    run(t.ops@, answers(t.ops@, ov, base))
}

/// The approximate output size of transaction `t` with effect `e`: 16
/// bytes for each written key, and the transaction's own size where the
/// limits count it.
pub open spec fn approx_size(t: Transaction, e: EffectModel, limit: BlockGasLimitType) -> int {
    16 * e.writes.dom().len() + if limit.include_user_txn_size_in_block_output {
        t.user_txn_bytes_len as int
    } else {
        0
    }
}

/// Whether the fees `gas` and output sizes `size` end a block at index `i`
/// of a block of `n`.
pub open spec fn ends_block(limit: BlockGasLimitType, gas: int, size: int, i: int, n: int) -> bool {
    &&& i + 1 < n
    &&& (limit.block_gas_limit is Some && gas >= limit.block_gas_limit->Some_0)
        || (limit.block_output_limit is Some && size >= limit.block_output_limit->Some_0)
}

/// What committing the effect `e` of transaction `i` does to the
/// sequential state `s`. A transaction whose groups cannot be serialized is
/// discarded: its fee is charged and its writes are dropped.
pub open spec fn commit_step(
    n: int,
    t: Transaction,
    base: Map<StateKey, u128>,
    limit: BlockGasLimitType,
    s: SeqState,
    i: int,
    e: EffectModel,
) -> SeqState {
    if e.status == ExecutionStatus::Abort {
        SeqState { err: Some(BlockExecutionError::FatalVMError(i as u32)), ..s }
    } else if e.status == ExecutionStatus::DeltaApplicationFailure || !applies(s.ov, base, e.writes) {
        SeqState { err: Some(BlockExecutionError::FatalBlockExecutorError(i as u32)), ..s }
    } else if !groups_ok(s.ov.union_prefer_right(materialized(s.ov, base, e.writes)), base, e.writes) {
        SeqState {
            outs: s.outs.push(discard_model(DiscardCode::DelayedMaterializationCodeInvariantError)),
            gas: s.gas + t.gas,
            size: s.size + approx_size(t, e, limit),
            ..s
        }
    } else {
        let m = materialized(s.ov, base, e.writes);
        let gas = s.gas + t.gas;
        let size = s.size + approx_size(t, e, limit);
        let ov = s.ov.union_prefer_right(m);
        SeqState {
            ov,
            outs: s.outs.push(
                OutputModel {
                    kind: OutputKind::Committed,
                    reads: e.observed,
                    writes: m.map_values(|v: Option<u128>| value_bytes(v)),
                    groups: group_outputs(ov, base, e.writes),
                },
            ),
            gas,
            size,
            stopped: e.status == ExecutionStatus::SkipRest || ends_block(limit, gas, size, i, n),
            err: None,
        }
    }
}

/// Sequential execution of transaction `i` from state `s`.
pub open spec fn seq_step(block: Seq<Transaction>, base: Map<StateKey, u128>, limit: BlockGasLimitType, s: SeqState, i: int) -> SeqState {
    if s.stopped || s.err is Some {
        s
    } else {
        commit_step(block.len() as int, block[i], base, limit, s, i, effect_in(block[i], s.ov, base))
    }
}

pub open spec fn seq_init() -> SeqState {
    SeqState { ov: Map::empty(), outs: Seq::empty(), gas: 0, size: 0, stopped: false, err: None }
}

/// The sequential state after the first `i` transactions.
pub open spec fn seq_run(block: Seq<Transaction>, base: Map<StateKey, u128>, limit: BlockGasLimitType, i: nat) -> SeqState
    decreases i,
{
    if i == 0 {
        seq_init()
    } else {
        seq_step(block, base, limit, seq_run(block, base, limit, (i - 1) as nat), i - 1)
    }
}

/// The index of the transaction at which sequential execution failed with
/// `e`, as a one-element sequence; empty where it did not fail.
pub open spec fn failed_indices(e: Option<BlockExecutionError>) -> Seq<TxnIndex> {
    match e {
        Some(BlockExecutionError::FatalVMError(i)) => seq![i],
        Some(BlockExecutionError::FatalBlockExecutorError(i)) => seq![i],
        _ => Seq::empty(),
    }
}

/// The indices of the committed outputs among `outs`, in order.
pub open spec fn committed_indices(outs: Seq<OutputModel>) -> Seq<TxnIndex>
    decreases outs.len(),
{
    if outs.len() == 0 {
        Seq::empty()
    } else if outs.last().kind == OutputKind::Committed {
        committed_indices(outs.drop_last()).push((outs.len() - 1) as TxnIndex)
    } else {
        committed_indices(outs.drop_last())
    }
}

/// The outputs of a block run one transaction after another: those of the
/// committed transactions, then skipped outputs up to the block's length;
/// or the error of the first transaction that failed.
pub open spec fn sequential_block(block: Seq<Transaction>, base: Map<StateKey, u128>, limit: BlockGasLimitType) -> Result<Seq<OutputModel>, BlockExecutionError> {
    let s = seq_run(block, base, limit, block.len());
    match s.err {
        Some(e) => Err(e),
        None => Ok(s.outs + Seq::new((block.len() - s.outs.len()) as nat, |i: int| skip_model())),
    }
}

} // verus!

verus! {

/// The final values of a write set, given the value `olds[j]` that key `j`
/// had: `None` where a cell does not apply.
pub fn apply_writes(ws: &Vec<(StateKey, Cell)>, olds: &Vec<Option<u128>>) -> (r: Option<Vec<(StateKey, Option<u128>)>>)
    requires
        olds@.len() == ws@.len(),
    ensures
        r is Some <==> forall|j: int| 0 <= j < ws@.len() ==> (#[trigger] apply_cell(olds@[j], ws@[j].1)) is Some,
        r matches Some(m) ==> m@.len() == ws@.len() && forall|j: int| 0 <= j < ws@.len() ==> (#[trigger] m@[j]) == (ws@[j].0, apply_cell(olds@[j], ws@[j].1)->Some_0),
{
    let mut m: Vec<(StateKey, Option<u128>)> = Vec::new();
    let mut j: usize = 0;
    while j < ws.len()
        invariant
            j <= ws@.len(),
            olds@.len() == ws@.len(),
            m@.len() == j,
            forall|i: int| 0 <= i < j ==> (#[trigger] apply_cell(olds@[i], ws@[i].1)) is Some,
            forall|i: int| 0 <= i < j ==> (#[trigger] m@[i]) == (ws@[i].0, apply_cell(olds@[i], ws@[i].1)->Some_0),
        decreases ws@.len() - j,
    {
        let (k, c) = ws[j];
        let v = match c {
            Cell::Put(v) => Some(v),
            Cell::Del => None,
            Cell::Add(d) => match olds[j] {
                Some(x) => if x <= u128::MAX - d {
                    Some(x + d)
                } else {
                    assert(apply_cell(olds@[j as int], ws@[j as int].1) is None);
                    return None;
                },
                None => {
                    assert(apply_cell(olds@[j as int], ws@[j as int].1) is None);
                    return None;
                },
            },
        };
        m.push((k, v));
        j = j + 1;
    }
    Some(m)
}

/// Values fetched for each key of a write set, and the final values that
/// `apply_writes` computed from them, are what `materialized` says.
pub proof fn lemma_materialized(
    ws: Seq<(StateKey, Cell)>,
    olds: Seq<Option<u128>>,
    ov: Map<StateKey, Option<u128>>,
    base: Map<StateKey, u128>,
)
    requires
        unique_keys(ws),
        olds.len() == ws.len(),
        forall|j: int| 0 <= j < ws.len() ==> #[trigger] olds[j] == sval(ov, base, ws[j].0),
    ensures
        applies(ov, base, to_map(ws)) <==> forall|j: int| 0 <= j < ws.len() ==> (#[trigger] apply_cell(olds[j], ws[j].1)) is Some,
        forall|m: Seq<(StateKey, Option<u128>)>|
            m.len() == ws.len() && (forall|j: int| 0 <= j < ws.len() ==> (#[trigger] m[j]) == (ws[j].0, apply_cell(olds[j], ws[j].1)->Some_0))
            ==> to_map(m) == materialized(ov, base, to_map(ws)),
{
    let w = to_map(ws);
    if applies(ov, base, w) {
        assert forall|j: int| 0 <= j < ws.len() implies (#[trigger] apply_cell(olds[j], ws[j].1)) is Some by {
            lemma_to_map_at(ws, j);
            assert(w.contains_key(ws[j].0));
        }
    }
    if forall|j: int| 0 <= j < ws.len() ==> (#[trigger] apply_cell(olds[j], ws[j].1)) is Some {
        assert forall|k: StateKey| #[trigger] w.contains_key(k) implies apply_cell(sval(ov, base, k), w[k]) is Some by {
            lemma_to_map_dom(ws, k);
            let j = choose|j: int| 0 <= j < ws.len() && ws[j].0 == k;
            lemma_to_map_at(ws, j);
            assert(apply_cell(olds[j], ws[j].1) is Some);
        }
    }
    let g = |k: StateKey, c: Cell| apply_cell(sval(ov, base, k), c)->Some_0;
    assert forall|m: Seq<(StateKey, Option<u128>)>|
        m.len() == ws.len() && (forall|j: int| 0 <= j < ws.len() ==> (#[trigger] m[j]) == (ws[j].0, apply_cell(olds[j], ws[j].1)->Some_0))
        implies to_map(m) == materialized(ov, base, w) by {
        assert forall|j: int| 0 <= j < ws.len() implies (#[trigger] m[j]).0 == ws[j].0 && m[j].1 == g(ws[j].0, ws[j].1) by {
            assert(olds[j] == sval(ov, base, ws[j].0));
        }
        lemma_to_map_pointwise(ws, m, g);
        assert(to_map(m) =~= materialized(ov, base, w));
    }
}

/// The output of a committed transaction with the reads it observed, the
/// final values of its writes, and its serialized groups.
pub fn committed_output(observed: Vec<Option<u128>>, mat: &Vec<(StateKey, Option<u128>)>, groups: Vec<(u64, Vec<u8>)>) -> (r: TransactionOutput)
    ensures
        r@ == (OutputModel {
            kind: OutputKind::Committed,
            reads: observed@,
            writes: to_map(mat@).map_values(|v: Option<u128>| value_bytes(v)),
            groups: group_entries_view(groups@),
        }),
{
    let mut writes: Vec<(StateKey, Option<Vec<u8>>)> = Vec::new();
    let mut j: usize = 0;
    while j < mat.len()
        invariant
            j <= mat@.len(),
            writes@.len() == j,
            forall|i: int| 0 <= i < j ==> (#[trigger] writes@[i]).0 == mat@[i].0 && opt_bytes_view(writes@[i].1) == value_bytes(mat@[i].1),
        decreases mat@.len() - j,
    {
        let (k, v) = mat[j];
        let b = match v {
            Some(x) => Some(serialize_value(x)),
            None => None,
        };
        writes.push((k, b));
        j = j + 1;
    }
    let r = TransactionOutput { kind: OutputKind::Committed, reads: observed, writes, groups };
    proof {
        let s2 = writes@.map_values(|p: (StateKey, Option<Vec<u8>>)| (p.0, opt_bytes_view(p.1)));
        let g = |k: StateKey, v: Option<u128>| value_bytes(v);
        assert forall|i: int| 0 <= i < mat@.len() implies (#[trigger] s2[i]).0 == mat@[i].0 && s2[i].1 == g(mat@[i].0, mat@[i].1) by {
            assert(writes@[i].0 == mat@[i].0);
        }
        lemma_to_map_pointwise(mat@, s2, g);
        assert(to_map(s2) =~= to_map(mat@).map_values(|v: Option<u128>| value_bytes(v)));
    }
    r
}

/// The output of a transaction that was not executed.
pub fn skip_output() -> (r: TransactionOutput)
    ensures
        r@ == skip_model(),
{
    let r = TransactionOutput { kind: OutputKind::Skipped, reads: Vec::new(), writes: Vec::new(), groups: Vec::new() };
    proof {
        assert(r@.reads =~= Seq::<Option<u128>>::empty());
        assert(r@.writes =~= Map::<StateKey, Option<Seq<u8>>>::empty());
        assert(r@.groups =~= Map::<u64, Seq<u8>>::empty());
    }
    r
}

/// The output of a discarded transaction.
pub fn discard_output(code: DiscardCode) -> (r: TransactionOutput)
    ensures
        r@ == discard_model(code),
{
    let r = TransactionOutput { kind: OutputKind::Discarded(code), reads: Vec::new(), writes: Vec::new(), groups: Vec::new() };
    proof {
        assert(r@.reads =~= Seq::<Option<u128>>::empty());
        assert(r@.writes =~= Map::<StateKey, Option<Seq<u8>>>::empty());
        assert(r@.groups =~= Map::<u64, Seq<u8>>::empty());
    }
    r
}

/// Whether `k` is a member of group `g`.
pub open spec fn in_group(k: StateKey, g: u64) -> bool {
    k.kind == KeyKind::Group && k.id == g
}

/// The serialized groups that the write set `ws` touches, given candidate
/// keys (among them every key that has a value under `f`) and their values:
/// `None` where one of them cannot be serialized.
pub fn output_groups(
    ws: &Vec<(StateKey, Cell)>,
    cands: &Vec<StateKey>,
    vals: &Vec<Option<u128>>,
    f: Ghost<spec_fn(StateKey) -> Option<u128>>,
) -> (r: Option<Vec<(u64, Vec<u8>)>>)
    requires
        cands@.len() == vals@.len(),
        forall|i: int| 0 <= i < cands@.len() ==> #[trigger] vals@[i] == f@(cands@[i]),
        forall|k: StateKey| (#[trigger] f@(k)) is Some ==> exists|i: int| 0 <= i < cands@.len() && cands@[i] == k,
    ensures
        r is Some <==> forall|g: u64| touched(to_map(ws@), g) ==> (#[trigger] bcs_group_bytes(members_of(f@, g))) is Some,
        r matches Some(v) ==> group_entries_view(v@) == Map::new(|g: u64| touched(to_map(ws@), g), |g: u64| bcs_group_bytes(members_of(f@, g))->Some_0),
{
    let mut out: Vec<(u64, Vec<u8>)> = Vec::new();
    let mut i: usize = 0;
    while i < ws.len()
        invariant
            i <= ws@.len(),
            cands@.len() == vals@.len(),
            forall|j: int| 0 <= j < cands@.len() ==> #[trigger] vals@[j] == f@(cands@[j]),
            forall|k: StateKey| (#[trigger] f@(k)) is Some ==> exists|j: int| 0 <= j < cands@.len() && cands@[j] == k,
            unique_keys(out@),
            forall|g: u64| to_map(out@).contains_key(g) <==> exists|j: int| 0 <= j < i && #[trigger] in_group(ws@[j].0, g),
            forall|g: u64| #[trigger] to_map(out@).contains_key(g) ==> bcs_group_bytes(members_of(f@, g)) == Some(to_map(out@)[g]@),
        decreases ws@.len() - i,
    {
        let k = ws[i].0;
        let ghost before = to_map(out@);
        if k.kind == KeyKind::Group {
            proof {
                assert forall|t: u64| (#[trigger] f@(member(k.id, t))) is Some implies exists|j: int| 0 <= j < cands@.len() && cands@[j] == member(k.id, t) by {}
            }
            match crate::group::finalize_group(k.id, cands, vals, f) {
                Some(b) => put_u64(&mut out, k.id, b),
                None => {
                    proof {
                        lemma_to_map_dom(ws@, member(k.id, k.tag));
                        assert(ws@[i as int].0 == member(k.id, k.tag));
                        assert(touched(to_map(ws@), k.id));
                    }
                    return None;
                },
            }
        }
        proof {
            assert forall|g: u64| to_map(out@).contains_key(g) <==> exists|j: int| 0 <= j < i + 1 && #[trigger] in_group(ws@[j].0, g) by {
                let now = in_group(ws@[i as int].0, g);
                if now {
                    assert(to_map(out@).contains_key(g));
                } else {
                    assert(to_map(out@).contains_key(g) == before.contains_key(g));
                }
                if exists|j: int| 0 <= j < i + 1 && #[trigger] in_group(ws@[j].0, g) {
                    let j = choose|j: int| 0 <= j < i + 1 && #[trigger] in_group(ws@[j].0, g);
                    if j < i {
                        assert(exists|j: int| 0 <= j < i && #[trigger] in_group(ws@[j].0, g));
                    }
                }
                if before.contains_key(g) {
                    let j = choose|j: int| 0 <= j < i && #[trigger] in_group(ws@[j].0, g);
                    assert(0 <= j < i + 1 && in_group(ws@[j].0, g));
                }
            }
        }
        i = i + 1;
    }
    proof {
        assert forall|g: u64| #[trigger] touched(to_map(ws@), g) <==> exists|j: int| 0 <= j < ws@.len() && #[trigger] in_group(ws@[j].0, g) by {
            if touched(to_map(ws@), g) {
                let t = choose|t: u64| #[trigger] to_map(ws@).contains_key(member(g, t));
                lemma_to_map_dom(ws@, member(g, t));
                let j = choose|j: int| 0 <= j < ws@.len() && ws@[j].0 == member(g, t);
                assert(in_group(ws@[j].0, g));
            }
            if exists|j: int| 0 <= j < ws@.len() && #[trigger] in_group(ws@[j].0, g) {
                let j = choose|j: int| 0 <= j < ws@.len() && #[trigger] in_group(ws@[j].0, g);
                lemma_to_map_dom(ws@, ws@[j].0);
                assert(ws@[j].0 == member(g, ws@[j].0.tag));
                assert(to_map(ws@).contains_key(member(g, ws@[j].0.tag)));
            }
        }
        assert forall|g: u64| touched(to_map(ws@), g) implies (#[trigger] bcs_group_bytes(members_of(f@, g))) is Some by {
            assert(to_map(out@).contains_key(g));
        }
        let h = |g: u64, b: Vec<u8>| b@;
        let s2 = out@.map_values(|p: (u64, Vec<u8>)| (p.0, p.1@));
        assert forall|x: int| 0 <= x < out@.len() implies (#[trigger] s2[x]).0 == out@[x].0 && s2[x].1 == h(out@[x].0, out@[x].1) by {}
        lemma_to_map_pointwise(out@, s2, h);
        assert(group_entries_view(out@) =~= Map::new(|g: u64| touched(to_map(ws@), g), |g: u64| bcs_group_bytes(members_of(f@, g))->Some_0));
    }
    Some(out)
}


/// Once sequential execution stops or fails, later transactions change
/// nothing.
pub proof fn lemma_seq_run_stable(block: Seq<Transaction>, base: Map<StateKey, u128>, limit: BlockGasLimitType, i: nat, j: nat)
    requires
        i <= j,
        seq_run(block, base, limit, i).stopped || seq_run(block, base, limit, i).err is Some,
    ensures
        seq_run(block, base, limit, j) == seq_run(block, base, limit, i),
    decreases j,
{
    if i < j {
        lemma_seq_run_stable(block, base, limit, i, (j - 1) as nat);
    }
}

/// Sequential execution fails only with a VM error or an executor error.
pub proof fn lemma_sequential_errors(block: Seq<Transaction>, base: Map<StateKey, u128>, limit: BlockGasLimitType, i: nat)
    ensures
        seq_run(block, base, limit, i).err != Some(BlockExecutionError::FallbackNotAllowed),
    decreases i,
{
    if i > 0 {
        lemma_sequential_errors(block, base, limit, (i - 1) as nat);
    }
}

/// Sequential execution commits at most one output per transaction.
pub proof fn lemma_seq_outs_len(block: Seq<Transaction>, base: Map<StateKey, u128>, limit: BlockGasLimitType, i: nat)
    ensures
        seq_run(block, base, limit, i).outs.len() <= i,
    decreases i,
{
    if i > 0 {
        lemma_seq_outs_len(block, base, limit, (i - 1) as nat);
    }
}

/// While sequential execution runs on, it has one output per transaction.
pub proof fn lemma_seq_outs_running(block: Seq<Transaction>, base: Map<StateKey, u128>, limit: BlockGasLimitType, i: nat)
    requires
        !seq_run(block, base, limit, i).stopped,
        seq_run(block, base, limit, i).err is None,
    ensures
        seq_run(block, base, limit, i).outs.len() == i,
    decreases i,
{
    if i > 0 {
        lemma_seq_outs_running(block, base, limit, (i - 1) as nat);
    }
}

/// A block that executes yields exactly one output per transaction.
pub proof fn lemma_one_output_per_txn(block: Seq<Transaction>, base: Map<StateKey, u128>, limit: BlockGasLimitType)
    ensures
        sequential_block(block, base, limit) matches Ok(v) ==> v.len() == block.len(),
{
    lemma_seq_outs_len(block, base, limit, block.len());
}

/// Whether sequential execution runs transaction `c` without failing (it
/// is then committed or discarded).
pub open spec fn runs_at(block: Seq<Transaction>, base: Map<StateKey, u128>, limit: BlockGasLimitType, c: int) -> bool {
    let s = seq_run(block, base, limit, c as nat);
    let e = effect_in(block[c], s.ov, base);
    &&& !s.stopped
    &&& s.err is None
    &&& e.status != ExecutionStatus::Abort
    &&& e.status != ExecutionStatus::DeltaApplicationFailure
    &&& applies(s.ov, base, e.writes)
}

/// Whether sequential execution commits transaction `c`: it runs, and its
/// groups serialize.
pub open spec fn commits_at(block: Seq<Transaction>, base: Map<StateKey, u128>, limit: BlockGasLimitType, c: int) -> bool {
    let s = seq_run(block, base, limit, c as nat);
    let e = effect_in(block[c], s.ov, base);
    &&& runs_at(block, base, limit, c)
    &&& groups_ok(s.ov.union_prefer_right(materialized(s.ov, base, e.writes)), base, e.writes)
}

/// The listener is told of each index at most once: the committed indices
/// are strictly increasing, and each is that of a committed output.
pub proof fn lemma_committed_indices_once(outs: Seq<OutputModel>)
    requires
        outs.len() <= u32::MAX + 1,
    ensures
        forall|i: int, j: int| 0 <= i < j < committed_indices(outs).len() ==> committed_indices(outs)[i] < committed_indices(outs)[j],
        forall|i: int| 0 <= i < committed_indices(outs).len() ==> {
            let x = #[trigger] committed_indices(outs)[i];
            x < outs.len() && outs[x as int].kind == OutputKind::Committed
        },
    decreases outs.len(),
{
    if outs.len() > 0 {
        let rest = outs.drop_last();
        lemma_committed_indices_once(rest);
        let ci = committed_indices(outs);
        let cr = committed_indices(rest);
        assert forall|i: int| 0 <= i < cr.len() implies (#[trigger] cr[i]) < outs.len() - 1 && outs[cr[i] as int] == rest[cr[i] as int] by {}
    }
}

/// Once a transaction that asks to skip the rest is committed at `c`, every
/// later transaction's output is a skipped one.
pub proof fn lemma_skip_rest_contagion(block: Seq<Transaction>, base: Map<StateKey, u128>, limit: BlockGasLimitType, c: nat)
    requires
        c < block.len(),
        commits_at(block, base, limit, c as int),
        effect_in(block[c as int], seq_run(block, base, limit, c).ov, base).status == ExecutionStatus::SkipRest,
        sequential_block(block, base, limit) is Ok,
    ensures
        sequential_block(block, base, limit)->Ok_0[c as int].kind == OutputKind::Committed,
        forall|j: int| c < j < block.len() ==> #[trigger] sequential_block(block, base, limit)->Ok_0[j] == skip_model(),
{
    let s1 = seq_run(block, base, limit, c + 1);
    assert(s1 == seq_step(block, base, limit, seq_run(block, base, limit, c), c as int));
    lemma_seq_outs_running(block, base, limit, c);
    if s1.err is Some {
        lemma_seq_run_stable(block, base, limit, c + 1, block.len());
    } else {
        assert(s1.stopped);
        lemma_seq_run_stable(block, base, limit, c + 1, block.len());
        assert(s1.outs.len() == c + 1);
    }
}

} // verus!
