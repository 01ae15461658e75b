//! Decisions taken on a pending transaction before it is simulated.

use vstd::prelude::*;

verus! {

/// What the screening reads of a fetched transaction.
#[derive(Clone, Copy, Debug, PartialEq, Eq, Structural)]
pub struct TxSummary {
    /// The block it was included in, if it was.
    pub block_number: Option<u64>,
    /// Its EIP-1559 fee cap, if it has one.
    pub max_fee_per_gas: Option<u128>,
}

/// The outcome of screening a pending transaction.
#[derive(Clone, Copy, Debug, PartialEq, Eq, Structural)]
pub enum Screening {
    /// The block number or the base fee is not known yet.
    NotReady,
    /// The transaction is already in a block.
    Mined,
    /// The transaction is in a block more than five blocks old.
    Stale,
    /// Its fee cap is below the next base fee (a missing cap counts as 0).
    Underpriced,
    /// Worth simulating.
    Admit,
}

/// Transactions are only processed once a block and a base fee have been seen.
pub fn chain_ready(block_number: u64, next_base_fee: u64) -> (r: bool)
    ensures
        r == (block_number != 0 && next_base_fee != 0),
{
    block_number != 0 && next_base_fee != 0
}

/// Screening before simulation: a mined transaction is skipped, then one
/// whose fee cap cannot pay the next base fee.
pub fn screen_transaction(tx: &TxSummary, next_base_fee: u64) -> (r: Screening)
    ensures
        r == (if tx.block_number is Some {
            Screening::Mined
        } else if tx.max_fee_per_gas.unwrap_or(0) < next_base_fee as u128 {
            Screening::Underpriced
        } else {
            Screening::Admit
        }),
{
    if tx.block_number.is_some() {
        return Screening::Mined;
    }
    let max_fee = match tx.max_fee_per_gas {
        Some(f) => f,
        None => 0,
    };
    if max_fee < next_base_fee as u128 {
        return Screening::Underpriced;
    }
    Screening::Admit
}

/// Screening of a fetched pending transaction against the current block:
/// nothing is done before a block and a base fee are known; a transaction
/// included more than five blocks ago (or while no block is known) is stale;
/// then one whose fee cap cannot pay the base fee is skipped.
pub fn screen_pending_transaction(tx: &TxSummary, current_block: u64, current_base_fee: u64) -> (r: Screening)
    ensures
        r == (if current_block == 0 || current_base_fee == 0 {
            Screening::NotReady
        } else if tx.block_number is Some && (current_block - tx.block_number.unwrap() > 5) {
            Screening::Stale
        } else if tx.max_fee_per_gas.unwrap_or(0) < current_base_fee as u128 {
            Screening::Underpriced
        } else {
            Screening::Admit
        }),
{
    if current_block == 0 || current_base_fee == 0 {
        return Screening::NotReady;
    }
    match tx.block_number {
        Some(block_number) => {
            if current_block.saturating_sub(block_number) > 5 || current_block == 0 {
                return Screening::Stale;
            }
        },
        None => {},
    }
    let max_fee = match tx.max_fee_per_gas {
        Some(f) => f,
        None => 0,
    };
    if max_fee < current_base_fee as u128 {
        return Screening::Underpriced;
    }
    Screening::Admit
}

} // verus!
