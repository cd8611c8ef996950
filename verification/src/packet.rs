//! Wire shapes of the cross-chain transport.
//!
//! These are the semantic shapes of the packets the provider exchanges with
//! a consumer chain; the transport serializes them outside this crate.

use vstd::prelude::*;

verus! {

/// A coin on the wire: the provider-side denomination and an amount.
#[derive(Debug, Clone, PartialEq, Eq)]
pub struct PacketCoin {
    pub denom: String,
    pub amount: u64,
}

/// Messages sent from the provider to the consumer; each has its own ack.
#[derive(Debug, Clone, PartialEq, Eq)]
pub enum ProviderPacket {
    /// More tokens were locked to virtually stake on the validator.
    Stake { validator: String, stake: PacketCoin, tx_id: u64 },
    /// Previously staked tokens enter their unbonding period.
    Unstake { validator: String, unstake: PacketCoin, tx_id: u64 },
}

/// Ack sent for `ProviderPacket::Stake`.
#[derive(Debug, Clone, Copy, PartialEq, Eq, Structural)]
pub struct StakeAck {}

/// Ack sent for `ProviderPacket::Unstake`.
#[derive(Debug, Clone, Copy, PartialEq, Eq, Structural)]
pub struct UnstakeAck {}

/// A validator joining the active set, or refreshing its key.
#[derive(Debug, Clone, PartialEq, Eq)]
pub struct AddValidator {
    /// The operator address used for delegations and rewards.
    pub valoper: String,
    /// The consensus public key, used to detect slashing conditions.
    pub pub_key: String,
    /// First height the validator was active.
    pub start_height: u64,
    /// Timestamp of the first active block, unix seconds.
    pub start_time: u64,
}

/// Messages sent from the consumer to the provider.
#[derive(Debug, Clone, PartialEq, Eq)]
pub enum ConsumerPacket {
    /// Validators that registered or changed keys; one such packet arrives
    /// right after the channel opens to sync the initial state.
    AddValidators(Vec<AddValidator>),
    /// Validators that were tombstoned: no longer a valid target to
    /// delegate to.
    RemoveValidators(Vec<String>),
}

/// Ack sent for `ConsumerPacket::AddValidators`.
#[derive(Debug, Clone, Copy, PartialEq, Eq, Structural)]
pub struct AddValidatorsAck {}

/// Ack sent for `ConsumerPacket::RemoveValidators`.
#[derive(Debug, Clone, Copy, PartialEq, Eq, Structural)]
pub struct RemoveValidatorsAck {}

impl ProviderPacket {
    /// The journal id the packet carries, to route its ack or timeout.
    pub fn tx_id(&self) -> (id: u64)
        ensures
            (match *self {
                ProviderPacket::Stake { tx_id, .. } => id == tx_id,
                ProviderPacket::Unstake { tx_id, .. } => id == tx_id,
            }),
    {
        match self {
            ProviderPacket::Stake { tx_id, .. } => *tx_id,
            ProviderPacket::Unstake { tx_id, .. } => *tx_id,
        }
    }
}

} // verus!
