//! An in-process accounting and settlement engine for a prediction-market
//! platform.
//!
//! The crate owns account balances, an append-only transaction log,
//! escrow-locked bet funds, and market lifecycle with pari-mutuel payout
//! computation.  All monetary amounts are integer token units; every public
//! operation either succeeds atomically or fails with a single named error
//! and no partial effect.

pub mod engine;
pub mod errors;
pub mod escrow;
pub mod ledger;
pub mod markets;
pub mod numfmt;
pub mod recipes;

pub use engine::Engine;
pub use errors::LedgerError;
pub use escrow::{Escrow, EscrowEntry};
pub use ledger::{Account, Ledger, LedgerStats, Transaction, TxKind, MAX_SUPPLY};
pub use markets::{Bet, BetStatus, CreateMarketRequest, Market, MarketManager, MarketStats, MarketStatus, ResolveMarketRequest, PRICE_SCALE};
pub use recipes::Recipe;
