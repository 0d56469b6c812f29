//! A block executor: runs an ordered block of transactions against a base
//! state, speculatively and in parallel, with outputs equal to those of
//! running them one after another.
//!
//! - `types`: keys, transactions, write sets, outputs, configuration.
//! - `vm`: the transaction machine, a function of the values read.
//! - `state`: the base state and the meaning of sequential execution.
//! - `mvs`: the multi-version store, with estimates and increments.
//! - `scheduler`: execution, validation and commit of each transaction.
//! - `group`, `codec`: finalized resource groups and their bytes.
//! - `limit_processor`: when fees and output sizes end a block early.
//! - `sequential`, `executor`: the two ways of running a block.
//! - `txn_commit_hook`: listeners told of each committed transaction.
//! - `assoc`: association lists that the other modules build on.

pub mod assoc;
pub mod codec;
pub mod executor;
pub mod group;
pub mod limit_processor;
pub mod mvs;
pub mod scheduler;
pub mod sequential;
pub mod state;
pub mod txn_commit_hook;
pub mod types;
pub mod vm;
