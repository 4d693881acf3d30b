//! The error taxonomy of the engine.
//!
//! Every mutating operation reports success or exactly one of these error
//! kinds, fail-fast on the first violated precondition and with zero partial
//! mutation on failure.

use vstd::prelude::*;

verus! {

/// One error kind per way an operation can be refused.
///
/// `LedgerUnavailable` is reserved for the hosting layer: it is reported when
/// exclusive access to the shared engine state cannot be obtained (a prior
/// holder crashed mid-operation).  No operation of this crate returns it.
#[derive(Clone, Copy, Debug, PartialEq, Eq, Structural)]
pub enum LedgerError {
    UnknownAccount,
    DuplicateAccount,
    InsufficientBalance,
    InvalidAmount,
    DuplicateMarketId,
    UnknownMarket,
    InvalidOutcomeIndex,
    MarketNotOpen,
    MarketAlreadyResolved,
    DuplicateBet,
    EscrowNotFound,
    LedgerUnavailable,
}

impl LedgerError {
    /// A stable, human-readable name for the error kind.
    pub fn message(&self) -> (r: &'static str)
        ensures
            r@.len() > 0,
    {
        proof {
            reveal_strlit("unknown account");
            reveal_strlit("duplicate account");
            reveal_strlit("insufficient balance");
            reveal_strlit("invalid amount");
            reveal_strlit("duplicate market id");
            reveal_strlit("unknown market");
            reveal_strlit("invalid outcome index");
            reveal_strlit("market not open");
            reveal_strlit("market already resolved");
            reveal_strlit("duplicate bet");
            reveal_strlit("escrow entry not found");
            reveal_strlit("ledger unavailable");
        }
        match self {
            LedgerError::UnknownAccount => "unknown account",
            LedgerError::DuplicateAccount => "duplicate account",
            LedgerError::InsufficientBalance => "insufficient balance",
            LedgerError::InvalidAmount => "invalid amount",
            LedgerError::DuplicateMarketId => "duplicate market id",
            LedgerError::UnknownMarket => "unknown market",
            LedgerError::InvalidOutcomeIndex => "invalid outcome index",
            LedgerError::MarketNotOpen => "market not open",
            LedgerError::MarketAlreadyResolved => "market already resolved",
            LedgerError::DuplicateBet => "duplicate bet",
            LedgerError::EscrowNotFound => "escrow entry not found",
            LedgerError::LedgerUnavailable => "ledger unavailable",
        }
    }
}

} // verus!
