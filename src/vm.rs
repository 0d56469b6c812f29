//! The transaction machine: runs a transaction's steps against the values
//! of the keys it reads.
//!
//! The keys a transaction reads are fixed by its steps (`read_keys`), so an
//! execution is a function of the answers to those reads alone (`run`). The
//! executors fetch the answers from the state they see and hand them here.
use vstd::prelude::*;
use crate::assoc::{get, put, to_map, unique_keys};
use crate::types::{Cell, Effect, ExecutionStatus, KeyKind, Op, StateKey};

verus! {

/// The mathematical content of an `Effect`.
pub struct EffectModel {
    pub status: ExecutionStatus,
    pub observed: Seq<Option<u128>>,
    pub writes: Map<StateKey, Cell>,
}

impl View for Effect {
    type V = EffectModel;

    open spec fn view(&self) -> EffectModel {
        EffectModel { status: self.status, observed: self.observed@, writes: to_map(self.writes@) }
    }
}

/// The keys that a transaction's steps read, in order: one for each `Read`
/// and each `Copy`.
pub open spec fn read_keys(ops: Seq<Op>) -> Seq<StateKey>
    decreases ops.len(),
{
    if ops.len() == 0 {
        Seq::empty()
    } else {
        let r = read_keys(ops.drop_last());
        match ops.last() {
            Op::Read { key } => r.push(key),
            Op::Copy { from, to } => r.push(from),
            _ => r,
        }
    }
}

/// The state of a run part way through.
pub struct RunState {
    /// How many answers were used.
    pub slot: nat,
    /// The transaction's own writes so far.
    pub local: Map<StateKey, Cell>,
    pub observed: Seq<Option<u128>>,
    pub status: ExecutionStatus,
}

pub open spec fn stopped(s: ExecutionStatus) -> bool {
    s == ExecutionStatus::Abort || s == ExecutionStatus::DeltaApplicationFailure
}

pub open spec fn answer(ans: Seq<Option<u128>>, slot: nat) -> Option<u128> {
    if slot < ans.len() {
        ans[slot as int]
    } else {
        None
    }
}

/// The value a transaction sees at `k` given its own writes and the value
/// `a` of the state; `None` when an increment of its own cannot be applied.
pub open spec fn resolve(local: Map<StateKey, Cell>, k: StateKey, a: Option<u128>) -> Option<Option<u128>> {
    if local.contains_key(k) {
        match local[k] {
            Cell::Put(v) => Some(Some(v)),
            Cell::Del => Some(None),
            Cell::Add(d) => match a {
                Some(x) => if x + d <= u128::MAX {
                    Some(Some((x + d) as u128))
                } else {
                    None
                },
                None => None,
            },
        }
    } else {
        Some(a)
    }
}

/// The cell at `k` after adding `d`; `None` when it cannot be applied.
pub open spec fn add_cell(local: Map<StateKey, Cell>, k: StateKey, d: u128) -> Option<Cell> {
    if local.contains_key(k) {
        match local[k] {
            Cell::Put(v) => if v + d <= u128::MAX {
                Some(Cell::Put((v + d) as u128))
            } else {
                None
            },
            Cell::Del => None,
            Cell::Add(e) => if e + d <= u128::MAX {
                Some(Cell::Add((e + d) as u128))
            } else {
                None
            },
        }
    } else {
        Some(Cell::Add(d))
    }
}

pub open spec fn fail(s: RunState) -> RunState {
    RunState { status: ExecutionStatus::DeltaApplicationFailure, ..s }
}

pub open spec fn step(s: RunState, op: Op, ans: Seq<Option<u128>>) -> RunState {
    if stopped(s.status) {
        s
    } else {
        match op {
            Op::Read { key } => match resolve(s.local, key, answer(ans, s.slot)) {
                Some(v) => RunState { slot: s.slot + 1, observed: s.observed.push(v), ..s },
                None => fail(RunState { slot: s.slot + 1, ..s }),
            },
            Op::Write { key, value } => RunState { local: s.local.insert(key, Cell::Put(value)), ..s },
            Op::Delete { key } => RunState { local: s.local.insert(key, Cell::Del), ..s },
            Op::Copy { from, to } => match resolve(s.local, from, answer(ans, s.slot)) {
                Some(Some(v)) => RunState {
                    slot: s.slot + 1,
                    local: s.local.insert(to, Cell::Put(v)),
                    ..s
                },
                Some(None) => RunState { slot: s.slot + 1, local: s.local.insert(to, Cell::Del), ..s },
                None => fail(RunState { slot: s.slot + 1, ..s }),
            },
            Op::Add { key, amount } => match add_cell(s.local, key, amount as u128) {
                Some(c) => RunState { local: s.local.insert(key, c), ..s },
                None => fail(s),
            },
            Op::SkipRest => RunState { status: ExecutionStatus::SkipRest, ..s },
            Op::Abort => RunState { status: ExecutionStatus::Abort, ..s },
        }
    }
}

pub open spec fn run_upto(ops: Seq<Op>, ans: Seq<Option<u128>>, i: nat) -> RunState
    decreases i,
{
    if i == 0 {
        RunState {
            slot: 0,
            local: Map::empty(),
            observed: Seq::empty(),
            status: ExecutionStatus::Success,
        }
    } else {
        step(run_upto(ops, ans, (i - 1) as nat), ops[i - 1], ans)
    }
}

/// What running `ops` on the answers `ans` gives. A stopped run writes
/// nothing.
pub open spec fn run(ops: Seq<Op>, ans: Seq<Option<u128>>) -> EffectModel {
    let s = run_upto(ops, ans, ops.len());
    EffectModel {
        status: s.status,
        observed: s.observed,
        writes: if stopped(s.status) {
            Map::empty()
        } else {
            s.local
        },
    }
}

/// Whether the steps read a module and also write one.
pub open spec fn reads_and_writes_module(ops: Seq<Op>) -> bool {
    (exists|i: int| 0 <= i < ops.len() && #[trigger] read_keys_at(ops, i) == KeyKind::Module)
        && (exists|i: int| 0 <= i < ops.len() && #[trigger] written_kind(ops, i) == KeyKind::Module)
}

/// Kind of the key that step `i` reads; `Group` when it reads none (groups
/// are never read by a step).
pub open spec fn read_keys_at(ops: Seq<Op>, i: int) -> KeyKind {
    match ops[i] {
        Op::Read { key } => key.kind,
        Op::Copy { from, to } => from.kind,
        _ => KeyKind::Group,
    }
}

/// Kind of the key that step `i` writes; `Group` when it writes none.
pub open spec fn written_kind(ops: Seq<Op>, i: int) -> KeyKind {
    match ops[i] {
        Op::Write { key, value } => key.kind,
        Op::Delete { key } => key.kind,
        Op::Copy { from, to } => to.kind,
        Op::Add { key, amount } => key.kind,
        _ => KeyKind::Group,
    }
}

/// Whether a transaction both reads and writes modules.
pub fn module_read_write(ops: &Vec<Op>) -> (r: bool)
    ensures
        r == reads_and_writes_module(ops@),
{
    let mut reads = false;
    let mut writes = false;
    let mut i: usize = 0;
    while i < ops.len()
        invariant
            i <= ops@.len(),
            reads == (exists|j: int| 0 <= j < i && #[trigger] read_keys_at(ops@, j) == KeyKind::Module),
            writes == (exists|j: int| 0 <= j < i && #[trigger] written_kind(ops@, j) == KeyKind::Module),
        decreases ops@.len() - i,
    {
        let (rk, wk) = match ops[i] {
            Op::Read { key } => (key.kind, KeyKind::Group),
            Op::Copy { from, to } => (from.kind, to.kind),
            Op::Write { key, value } => (KeyKind::Group, key.kind),
            Op::Delete { key } => (KeyKind::Group, key.kind),
            Op::Add { key, amount } => (KeyKind::Group, key.kind),
            _ => (KeyKind::Group, KeyKind::Group),
        };
        assert(rk == read_keys_at(ops@, i as int));
        assert(wk == written_kind(ops@, i as int));
        if rk == KeyKind::Module {
            reads = true;
        }
        if wk == KeyKind::Module {
            writes = true;
        }
        i = i + 1;
    }
    reads && writes
}

fn resolve_exec(local: &Vec<(StateKey, Cell)>, k: StateKey, a: Option<u128>) -> (r: Option<Option<u128>>)
    requires
        unique_keys(local@),
    ensures
        r == resolve(to_map(local@), k, a),
{
    match get(local, k) {
        Some(Cell::Put(v)) => Some(Some(v)),
        Some(Cell::Del) => Some(None),
        Some(Cell::Add(d)) => match a {
            Some(x) => if x <= u128::MAX - d {
                Some(Some(x + d))
            } else {
                None
            },
            None => None,
        },
        None => Some(a),
    }
}

fn add_cell_exec(local: &Vec<(StateKey, Cell)>, k: StateKey, d: u128) -> (r: Option<Cell>)
    requires
        unique_keys(local@),
    ensures
        r == add_cell(to_map(local@), k, d),
{
    match get(local, k) {
        Some(Cell::Put(v)) => if v <= u128::MAX - d {
            Some(Cell::Put(v + d))
        } else {
            None
        },
        Some(Cell::Del) => None,
        Some(Cell::Add(e)) => if e <= u128::MAX - d {
            Some(Cell::Add(e + d))
        } else {
            None
        },
        None => Some(Cell::Add(d)),
    }
}

/// Runs `ops` against the answers to their reads.
pub fn run_ops(ops: &Vec<Op>, answers: &Vec<Option<u128>>) -> (e: Effect)
    ensures
        e@ == run(ops@, answers@),
        unique_keys(e.writes@),
{
    let mut slot: usize = 0;
    let mut local: Vec<(StateKey, Cell)> = Vec::new();
    let mut observed: Vec<Option<u128>> = Vec::new();
    let mut status = ExecutionStatus::Success;
    let mut i: usize = 0;
    while i < ops.len()
        invariant
            i <= ops@.len(),
            slot <= i,
            unique_keys(local@),
            run_upto(ops@, answers@, i as nat) == (RunState {
                slot: slot as nat,
                local: to_map(local@),
                observed: observed@,
                status,
            }),
        decreases ops@.len() - i,
    {
        let ghost before = run_upto(ops@, answers@, i as nat);
        if status != ExecutionStatus::Abort && status != ExecutionStatus::DeltaApplicationFailure {
            let a = if slot < answers.len() {
                answers[slot]
            } else {
                None
            };
            match ops[i] {
                Op::Read { key } => {
                    slot = slot + 1;
                    match resolve_exec(&local, key, a) {
                        Some(v) => observed.push(v),
                        None => status = ExecutionStatus::DeltaApplicationFailure,
                    }
                },
                Op::Write { key, value } => put(&mut local, key, Cell::Put(value)),
                Op::Delete { key } => put(&mut local, key, Cell::Del),
                Op::Copy { from, to } => {
                    slot = slot + 1;
                    match resolve_exec(&local, from, a) {
                        Some(Some(v)) => put(&mut local, to, Cell::Put(v)),
                        Some(None) => put(&mut local, to, Cell::Del),
                        None => status = ExecutionStatus::DeltaApplicationFailure,
                    }
                },
                Op::Add { key, amount } => match add_cell_exec(&local, key, amount as u128) {
                    Some(c) => put(&mut local, key, c),
                    None => status = ExecutionStatus::DeltaApplicationFailure,
                },
                Op::SkipRest => status = ExecutionStatus::SkipRest,
                Op::Abort => status = ExecutionStatus::Abort,
            }
        }
        i = i + 1;
        proof {
            assert(run_upto(ops@, answers@, i as nat) == step(before, ops@[i - 1], answers@));
        }
    }
    if status == ExecutionStatus::Abort || status == ExecutionStatus::DeltaApplicationFailure {
        local = Vec::new();
        proof {
            assert(to_map(local@) =~= Map::empty());
        }
    }
    Effect { status, observed, writes: local }
}

} // verus!

verus! {

/// The keys that `ops` read, in order.
pub fn read_key_list(ops: &Vec<Op>) -> (r: Vec<StateKey>)
    ensures
        r@ == read_keys(ops@),
{
    let mut r: Vec<StateKey> = Vec::new();
    let mut i: usize = 0;
    while i < ops.len()
        invariant
            i <= ops@.len(),
            r@ == read_keys(ops@.take(i as int)),
        decreases ops@.len() - i,
    {
        assert(ops@.take(i + 1).drop_last() =~= ops@.take(i as int));
        match ops[i] {
            Op::Read { key } => r.push(key),
            Op::Copy { from, to } => r.push(from),
            _ => {},
        }
        i = i + 1;
    }
    assert(ops@.take(ops@.len() as int) =~= ops@);
    r
}

} // verus!
