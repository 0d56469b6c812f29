//! Listeners told of each transaction's fate as a block commits.
use vstd::prelude::*;
use crate::types::{TransactionOutput, TxnIndex};

verus! {

/// Receives, in index order, each committed transaction and each that the
/// VM aborted.
pub trait TransactionCommitHook {
    /// The indices reported as committed so far, in order.
    spec fn committed(&self) -> Seq<TxnIndex>;

    /// The indices reported as aborted so far, in order.
    spec fn aborted(&self) -> Seq<TxnIndex>;

    fn on_transaction_committed(&mut self, idx: TxnIndex, output: &TransactionOutput)
        ensures
            final(self).committed() == old(self).committed().push(idx),
            final(self).aborted() == old(self).aborted(),
    ;

    fn on_execution_aborted(&mut self, idx: TxnIndex)
        ensures
            final(self).committed() == old(self).committed(),
            final(self).aborted() == old(self).aborted().push(idx),
    ;
}

/// A listener that records what it is told.
pub struct CommitLog {
    pub committed: Vec<TxnIndex>,
    pub aborted: Vec<TxnIndex>,
}

impl CommitLog {
    pub fn new() -> (r: CommitLog)
        ensures
            r.committed@ == Seq::<TxnIndex>::empty(),
            r.aborted@ == Seq::<TxnIndex>::empty(),
    {
        CommitLog { committed: Vec::new(), aborted: Vec::new() }
    }
}

impl TransactionCommitHook for CommitLog {
    open spec fn committed(&self) -> Seq<TxnIndex> {
        self.committed@
    }

    open spec fn aborted(&self) -> Seq<TxnIndex> {
        self.aborted@
    }

    fn on_transaction_committed(&mut self, idx: TxnIndex, output: &TransactionOutput) {
        self.committed.push(idx);
    }

    fn on_execution_aborted(&mut self, idx: TxnIndex) {
        self.aborted.push(idx);
    }
}

} // verus!
