//! Keys, transactions, write sets and outputs.
use vstd::prelude::*;

verus! {

/// Index of a transaction in its block.
pub type TxnIndex = u32;

/// Number of the execution attempt of a transaction, from 0.
pub type Incarnation = u32;

/// The disjoint parts of the key space.
#[derive(Clone, Copy, Debug, PartialEq, Eq, Structural)]
pub enum KeyKind {
    Resource,
    Module,
    /// Members of resource groups.
    Group,
    /// Numeric fields whose reads are checked only when their reader
    /// commits.
    DelayedField,
}

/// A key of the state: its kind, its address within that kind, and, for a
/// member of a resource group, the member's tag (0 otherwise).
#[derive(Clone, Copy, Debug, PartialEq, Eq, Structural)]
pub struct StateKey {
    pub kind: KeyKind,
    pub id: u64,
    pub tag: u64,
}

impl StateKey {
    pub fn resource(id: u64) -> (r: StateKey)
        ensures
            r == (StateKey { kind: KeyKind::Resource, id, tag: 0 }),
    {
        StateKey { kind: KeyKind::Resource, id, tag: 0 }
    }

    pub fn module(id: u64) -> (r: StateKey)
        ensures
            r == (StateKey { kind: KeyKind::Module, id, tag: 0 }),
    {
        StateKey { kind: KeyKind::Module, id, tag: 0 }
    }

    pub fn delayed_field(id: u64) -> (r: StateKey)
        ensures
            r == (StateKey { kind: KeyKind::DelayedField, id, tag: 0 }),
    {
        StateKey { kind: KeyKind::DelayedField, id, tag: 0 }
    }

    /// The member `tag` of the resource group `group`.
    pub fn group_member(group: u64, tag: u64) -> (r: StateKey)
        ensures
            r == (StateKey { kind: KeyKind::Group, id: group, tag }),
    {
        StateKey { kind: KeyKind::Group, id: group, tag }
    }
}

/// One step of a transaction.
///
/// `Read` and `Copy` read the state; `Add` is an aggregator increment that
/// does not read it.
#[derive(Clone, Copy, Debug, PartialEq, Eq, Structural)]
pub enum Op {
    /// Observes the value of `key`.
    Read { key: StateKey },
    /// Sets `key` to `value`.
    Write { key: StateKey, value: u128 },
    /// Removes `key`.
    Delete { key: StateKey },
    /// Sets `to` to the value of `from` (removes `to` where `from` is absent).
    Copy { from: StateKey, to: StateKey },
    /// Adds `amount` to the aggregator at `key`.
    Add { key: StateKey, amount: u64 },
    /// Asks that the block end after this transaction.
    SkipRest,
    /// Stops the transaction with an unrecoverable VM error.
    Abort,
}

/// A signature-verified transaction: its steps, the fee it is charged, and
/// its size in bytes as submitted by its sender.
#[derive(Clone, Debug)]
pub struct Transaction {
    pub ops: Vec<Op>,
    pub gas: u64,
    pub user_txn_bytes_len: u64,
}

/// What a transaction leaves for one key in its write set.
#[derive(Clone, Copy, Debug, PartialEq, Eq, Structural)]
pub enum Cell {
    Put(u128),
    Del,
    /// An increment of an aggregator whose base is read at commit.
    Add(u128),
}

/// How an execution of a transaction ended.
#[derive(Clone, Copy, Debug, PartialEq, Eq, Structural)]
pub enum ExecutionStatus {
    Success,
    SkipRest,
    /// The VM stopped with an unrecoverable error.
    Abort,
    /// An aggregator increment could not be applied.
    DeltaApplicationFailure,
}

/// The result of executing a transaction against the values it read.
#[derive(Clone, Debug)]
pub struct Effect {
    pub status: ExecutionStatus,
    /// The value that each `Read` step observed, in order.
    pub observed: Vec<Option<u128>>,
    /// The write set: distinct keys.
    pub writes: Vec<(StateKey, Cell)>,
}

/// Why a whole block's outputs were discarded.
#[derive(Clone, Copy, Debug, PartialEq, Eq, Structural)]
pub enum DiscardCode {
    /// An internal invariant of the executor failed.
    DelayedMaterializationCodeInvariantError,
    /// The VM failed without recovery.
    UnknownInvariantViolationError,
}

/// What the block's output says of one transaction.
#[derive(Clone, Copy, Debug, PartialEq, Eq, Structural)]
pub enum OutputKind {
    /// Executed and committed; its writes are part of the block's effect.
    Committed,
    /// Not executed: an earlier transaction ended the block.
    Skipped,
    /// Thrown away with the whole block.
    Discarded(DiscardCode),
}

/// The materialized output of one transaction.
#[derive(Clone, Debug)]
pub struct TransactionOutput {
    pub kind: OutputKind,
    /// The values that its `Read` steps observed.
    pub reads: Vec<Option<u128>>,
    /// Each written key with its final bytes, `None` for a deletion.
    pub writes: Vec<(StateKey, Option<Vec<u8>>)>,
    /// Each resource group with a written member, finalized and serialized.
    pub groups: Vec<(u64, Vec<u8>)>,
}

/// An unrecoverable failure of a block.
#[derive(Clone, Copy, Debug, PartialEq, Eq, Structural)]
pub enum BlockExecutionError {
    /// The VM failed at this transaction.
    FatalVMError(TxnIndex),
    /// An invariant of the executor failed at this transaction.
    FatalBlockExecutorError(TxnIndex),
    /// The parallel run failed and the configuration forbids falling back.
    FallbackNotAllowed,
}

/// Block-level settings.
#[derive(Clone, Copy, Debug)]
pub struct BlockExecutorConfig {
    /// Number of workers; 1 runs sequentially.
    pub concurrency_level: usize,
    /// Whether a failed parallel run is repeated sequentially.
    pub allow_fallback: bool,
    /// Whether a failed block yields discarded outputs instead of an error.
    pub discard_failed_blocks: bool,
    /// When the block ends early.
    pub block_gas_limit_type: BlockGasLimitType,
}

/// Limits that end a block early once the transactions committed so far
/// reach them.
#[derive(Clone, Copy, Debug)]
pub struct BlockGasLimitType {
    /// A bound on the sum of the fees.
    pub block_gas_limit: Option<u64>,
    /// A bound on the sum of the approximate output sizes.
    pub block_output_limit: Option<u64>,
    /// Whether a transaction's own size counts towards its output size.
    pub include_user_txn_size_in_block_output: bool,
}

} // verus!
