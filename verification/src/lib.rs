//! Provider-side core of a collateral-sharing ("mesh security") protocol.
//!
//! Token holders bond collateral in a vault and pledge it simultaneously to a
//! local delegation system and to any number of remote staking systems.  The
//! vault keeps, per user, a table of liens and two aggregates (the maximum
//! lien and the total slashable exposure); cross-chain stakes go through a
//! two-phase prepare/commit/rollback journal so that concurrent in-flight
//! operations can never overcommit the collateral.  The external-staking side
//! mirrors the liens per (user, validator), runs unbonding queues,
//! points-per-share reward distribution, and slashing propagation.

pub mod agg;
pub mod error;
pub mod extstaking;
pub mod nativestaking;
pub mod packet;
pub mod proxy;
pub mod pages;
pub mod range;
pub mod ratio;
pub mod valset;
pub mod vault;
