//! A single-market escrow and settlement engine for a betting venue.
//!
//! A [`market::PredictionMarket`] accepts stakes against a fixed set of
//! mutually exclusive outcomes, holds them in per-outcome escrow vaults, and
//! on resolution computes payouts (fixed-odds or proportional pool split) or
//! refunds every stake when the market is voided.  A
//! [`manager::MarketManager`] is a directory that owns many markets, keyed by
//! an identifier.
//!
//! Value is represented by explicit containers ([`tokens::Vault`]) and moved
//! quantities ([`tokens::Tokens`]); every transfer is a container mutation, so
//! conservation of value can be stated and proved for each operation.

pub mod amount;
pub mod manager;
pub mod market;
pub mod model;
pub mod parse;
pub mod tokens;
