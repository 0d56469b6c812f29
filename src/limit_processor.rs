//! When a block ends early: the fees and approximate output sizes of the
//! transactions committed so far, against the block's limits.
use vstd::prelude::*;
use crate::assoc::{lemma_to_map_len, unique_keys};
use crate::state::{approx_size, ends_block};
use crate::types::{BlockGasLimitType, Effect, Transaction};

verus! {

/// A bound on the approximate output size of one transaction.
pub const SIZE_BOUND: u128 = 0x200000000000000000;

/// The approximate output size of `txn` with effect `e`.
pub fn approx_output_size(txn: &Transaction, e: &Effect, limit: BlockGasLimitType) -> (r: u128)
    requires
        unique_keys(e.writes@),
    ensures
        r == approx_size(*txn, e@, limit),
        r <= SIZE_BOUND,
{
    proof {
        lemma_to_map_len(e.writes@);
    }
    let own: u128 = if limit.include_user_txn_size_in_block_output {
        txn.user_txn_bytes_len as u128
    } else {
        0
    };
    16 * (e.writes.len() as u128) + own
}

/// Whether the fees `gas` and output sizes `size` end the block after
/// transaction `idx` of `n`.
pub fn limit_reached(limit: BlockGasLimitType, gas: u128, size: u128, idx: usize, n: usize) -> (r: bool)
    ensures
        r == ends_block(limit, gas as int, size as int, idx as int, n as int),
{
    let by_gas = match limit.block_gas_limit {
        Some(l) => gas >= l as u128,
        None => false,
    };
    let by_size = match limit.block_output_limit {
        Some(l) => size >= l as u128,
        None => false,
    };
    idx < n && n - idx > 1 && (by_gas || by_size)
}

} // verus!
