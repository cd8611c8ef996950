//! Typed errors of the provider-side contracts.
//!
//! Every entry point either succeeds with its full state change or returns
//! one of these and leaves the state untouched.

use vstd::prelude::*;
use crate::range::{RangeError, ValueRange};

verus! {

/// Error kinds shared by the vault, the external-staking side, the native
/// staking router and its per-user proxies.
#[derive(Debug, Clone, Copy, PartialEq, Eq, Structural)]
pub enum ContractError {
    /// A caller other than the recorded destination, vault, owner or parent.
    Unauthorized,
    /// A token flow in a denomination other than the expected one (carried);
    /// raised on the vault side.
    UnexpectedDenom(u64),
    /// A token flow in a denomination other than the expected one (carried);
    /// raised on the external-staking side.
    InvalidDenom(u64),
    /// A prepared stake would let the liens outgrow the collateral.
    InsufficentBalance,
    /// An unbond larger than the free collateral (carried as a range).
    ClaimsLocked(ValueRange),
    /// A release with no backing lien for the caller.
    UnknownLienholder,
    /// A release larger than the backing lien.
    InsufficientLien,
    /// An unstake larger than the committed stake (carried).
    NotEnoughStake(u64),
    /// A commit or rollback of a transaction id that is not pending.
    UnknownTx(u64),
    /// A commit or rollback by a contract other than the one recorded
    /// (carried: the transaction id and the caller).
    WrongContractTx(u64, u64),
    /// A stake or unstake on a pair that already has a write in flight.
    Locked,
    /// A reward distribution on a validator with no stake at all.
    ZeroStake,
    /// An undelegation larger than the delegation (carried: validator and
    /// current delegation).
    InsufficientDelegation(u64, u64),
    /// An init reply that carried no payload.
    NoInstantiateData,
    /// An init reply under an unknown id (carried).
    InvalidReplyId(u64),
    /// A range reservation that the caller surfaced to the user.
    Range(RangeError),
}

} // verus!
