//! Native (local) staking router.
//!
//! The vault forwards local stakes here; the router keeps one proxy
//! contract per owner, instantiating it on the first stake and forwarding
//! later ones, and routes released tokens from a proxy back to the vault as
//! a local-stake release.

use vstd::prelude::*;
use crate::ratio::SlashRatio;
use crate::error::ContractError;

verus! {

/// Default largest fraction the local staking system can slash, percent.
pub const MAX_SLASH_PERCENTAGE: u32 = 10;

/// The largest fraction the local staking system can slash.
#[derive(Debug, Clone, Copy, PartialEq, Eq, Structural)]
pub struct MaxSlashResponse {
    pub max_slash: SlashRatio,
}

/// Router configuration.
#[derive(Debug, Clone, Copy, PartialEq, Eq, Structural)]
pub struct NativeConfig {
    /// Denomination of the staked tokens.
    pub denom: u64,
    /// Code id new proxies are instantiated from.
    pub proxy_code_id: u64,
    /// Address of the vault (the only caller allowed to stake).
    pub vault: u64,
}

/// What the router asks its caller to do with an incoming stake.
#[derive(Debug, Clone, Copy, PartialEq, Eq, Structural)]
pub enum StakeAction {
    /// No proxy yet: instantiate one for the owner and stake the funds on
    /// the validator through it.
    Instantiate { owner: u64, validator: u64 },
    /// The owner's proxy exists: forward the funds to it.
    Forward { proxy: u64, validator: u64 },
}

/// An owner-to-proxy association.
#[derive(Debug, Clone, Copy, PartialEq, Eq, Structural)]
pub struct ProxyEntry {
    pub owner: u64,
    pub proxy: u64,
}

/// The router's state.
#[derive(Debug, Clone, PartialEq, Eq)]
pub struct NativeStakingContract {
    pub config: NativeConfig,
    /// Proxy table, sorted strictly ascending by owner.
    pub proxies: Vec<ProxyEntry>,
}

impl NativeStakingContract {
    /// The proxy table is sorted strictly by owner.
    pub open spec fn wf(self) -> bool {
        forall|i: int, j: int|
            0 <= i < j < self.proxies@.len() ==> (#[trigger] self.proxies@[i]).owner
                < (#[trigger] self.proxies@[j]).owner
    }

    /// There is a proxy for the owner.
    pub open spec fn has_proxy(self, owner: u64) -> bool {
        exists|i: int|
            0 <= i < self.proxies@.len() && (#[trigger] self.proxies@[i]).owner == owner
    }

    /// Index of the owner's proxy entry.
    pub open spec fn proxy_ix(self, owner: u64) -> int {
        choose|i: int|
            0 <= i < self.proxies@.len() && (#[trigger] self.proxies@[i]).owner == owner
    }

    /// The owner's proxy address.
    pub open spec fn proxy_of(self, owner: u64) -> u64 {
        self.proxies@[self.proxy_ix(owner)].proxy
    }

    /// Some proxy address is registered.
    pub open spec fn has_owner(self, proxy: u64) -> bool {
        exists|i: int|
            0 <= i < self.proxies@.len() && (#[trigger] self.proxies@[i]).proxy == proxy
    }

    /// An empty router.
    pub fn new(denom: u64, proxy_code_id: u64, vault: u64) -> (v: NativeStakingContract)
        ensures
            v.wf(),
            v.config == (NativeConfig { denom, proxy_code_id, vault }),
            v.proxies@.len() == 0,
    {
        NativeStakingContract {
            config: NativeConfig { denom, proxy_code_id, vault },
            proxies: Vec::new(),
        }
    }

    /// The largest fraction the local staking system can slash.
    pub fn max_slash(&self) -> (r: MaxSlashResponse)
        ensures
            r.max_slash.ppb == MAX_SLASH_PERCENTAGE * 10_000_000,
            r.max_slash.wf(),
    {
        MaxSlashResponse { max_slash: SlashRatio::percent(MAX_SLASH_PERCENTAGE) }
    }

    /// Finds where the owner sits in the sorted proxy table.
    fn locate(&self, owner: u64) -> (r: (usize, bool))
        requires
            self.wf(),
        ensures
            r.0 <= self.proxies@.len(),
            forall|i: int| 0 <= i < r.0 ==> (#[trigger] self.proxies@[i]).owner < owner,
            r.1 ==> r.0 < self.proxies@.len() && self.proxies@[r.0 as int].owner == owner
                && self.has_proxy(owner) && self.proxy_ix(owner) == r.0,
            !r.1 && r.0 < self.proxies@.len() ==> self.proxies@[r.0 as int].owner > owner,
            !r.1 ==> !self.has_proxy(owner),
    {
        let mut i: usize = 0;
        while i < self.proxies.len() && self.proxies[i].owner < owner
            invariant
                i <= self.proxies@.len(),
                forall|j: int| 0 <= j < i ==> (#[trigger] self.proxies@[j]).owner < owner,
            decreases self.proxies@.len() - i,
        {
            i = i + 1;
        }
        let found = i < self.proxies.len() && self.proxies[i].owner == owner;
        proof {
            if found {
                self.lemma_proxy_ix(i as int, owner);
            } else {
                if self.has_proxy(owner) {
                    let j = choose|j: int|
                        0 <= j < self.proxies@.len() && (#[trigger] self.proxies@[j]).owner
                            == owner;
                    if (i as int) < j {
                        assert(self.proxies@[i as int].owner < self.proxies@[j].owner);
                    }
                }
            }
        }
        (i, found)
    }

    /// In the sorted table an owner determines its index.
    proof fn lemma_proxy_ix(self, i: int, owner: u64)
        requires
            self.wf(),
            0 <= i < self.proxies@.len(),
            self.proxies@[i].owner == owner,
        ensures
            self.has_proxy(owner),
            self.proxy_ix(owner) == i,
            self.proxy_of(owner) == self.proxies@[i].proxy,
    {
        assert(self.has_proxy(owner));
        let j = self.proxy_ix(owner);
        if j < i {
            assert(self.proxies@[j].owner < self.proxies@[i].owner);
        } else if i < j {
            assert(self.proxies@[i].owner < self.proxies@[j].owner);
        }
    }

    /// Decides what to do with a stake received from the vault on behalf of
    /// `owner`: instantiate a fresh proxy or forward to the existing one.
    /// Only the vault may call, with funds in the staking denomination.
    pub fn receive_stake(&self, sender: u64, owner: u64, validator: u64, amount: u64, denom: u64)
        -> (r: Result<StakeAction, ContractError>)
        requires
            self.wf(),
        ensures
            sender != self.config.vault ==> r == Err::<StakeAction, ContractError>(
                ContractError::Unauthorized,
            ),
            sender == self.config.vault && denom != self.config.denom ==> r == Err::<
                StakeAction,
                ContractError,
            >(ContractError::UnexpectedDenom(self.config.denom)),
            sender == self.config.vault && denom == self.config.denom && amount == 0 ==> r
                == Err::<StakeAction, ContractError>(ContractError::UnexpectedDenom(
                self.config.denom,
            )),
            sender == self.config.vault && denom == self.config.denom && amount > 0 ==> r
                == Ok::<StakeAction, ContractError>(
                if self.has_proxy(owner) {
                    StakeAction::Forward { proxy: self.proxy_of(owner), validator }
                } else {
                    StakeAction::Instantiate { owner, validator }
                },
            ),
    {
        if sender != self.config.vault {
            return Err(ContractError::Unauthorized);
        }
        if denom != self.config.denom || amount == 0 {
            return Err(ContractError::UnexpectedDenom(self.config.denom));
        }
        let (ix, found) = self.locate(owner);
        if found {
            Ok(StakeAction::Forward { proxy: self.proxies[ix].proxy, validator })
        } else {
            Ok(StakeAction::Instantiate { owner, validator })
        }
    }

    /// Associates a freshly instantiated proxy with its owner (the compute
    /// part of the instantiation reply).  A second registration for the
    /// same owner is refused.
    pub fn register_proxy(&mut self, owner: u64, proxy: u64) -> (r: Result<(), ContractError>)
        requires
            old(self).wf(),
        ensures
            final(self).wf(),
            old(self).has_proxy(owner) ==> r == Err::<(), ContractError>(
                ContractError::Unauthorized,
            ) && *final(self) == *old(self),
            !old(self).has_proxy(owner) ==> ({
                &&& r == Ok::<(), ContractError>(())
                &&& final(self).has_proxy(owner)
                &&& final(self).proxy_of(owner) == proxy
                &&& final(self).config == old(self).config
                &&& final(self).proxies@.len() == old(self).proxies@.len() + 1
            }),
    {
        let (ix, found) = self.locate(owner);
        if found {
            return Err(ContractError::Unauthorized);
        }
        let ghost pre = *self;
        self.proxies.insert(ix, ProxyEntry { owner, proxy });
        proof {
            pre.proxies@.insert_ensures(ix as int, self.proxies@[ix as int]);
            assert forall|i: int, j: int| 0 <= i < j < self.proxies@.len()
                implies (#[trigger] self.proxies@[i]).owner
                    < (#[trigger] self.proxies@[j]).owner by {
                if j < ix {
                    assert(pre.proxies@[i].owner < pre.proxies@[j].owner);
                } else if j == ix {
                    assert(pre.proxies@[i].owner < owner);
                } else if i < ix {
                    assert(pre.proxies@[i].owner < owner);
                    assert(pre.proxies@[j - 1].owner > owner);
                } else if i == ix {
                    assert(pre.proxies@[j - 1].owner > owner);
                } else {
                    assert(pre.proxies@[i - 1].owner < pre.proxies@[j - 1].owner);
                }
            }
            self.lemma_proxy_ix(ix as int, owner);
        }
        Ok(())
    }

    /// The owner behind a proxy address, if the caller is a registered
    /// proxy: tokens it returns go back to the vault as a local-stake
    /// release for that owner.
    pub fn release_proxy_stake(&self, sender: u64, amount: u64, denom: u64) -> (r: Result<
        u64,
        ContractError,
    >)
        requires
            self.wf(),
        ensures
            denom != self.config.denom ==> r == Err::<u64, ContractError>(
                ContractError::UnexpectedDenom(self.config.denom),
            ),
            denom == self.config.denom && amount == 0 ==> r == Err::<u64, ContractError>(
                ContractError::UnexpectedDenom(self.config.denom),
            ),
            denom == self.config.denom && amount > 0 && !self.has_owner(sender) ==> r == Err::<
                u64,
                ContractError,
            >(ContractError::Unauthorized),
            denom == self.config.denom && amount > 0 && self.has_owner(sender) ==> ({
                r matches Ok(owner) && exists|i: int|
                    0 <= i < self.proxies@.len() && (#[trigger] self.proxies@[i]).proxy == sender
                        && self.proxies@[i].owner == owner
            }),
    {
        if denom != self.config.denom || amount == 0 {
            return Err(ContractError::UnexpectedDenom(self.config.denom));
        }
        let mut i: usize = 0;
        while i < self.proxies.len()
            invariant
                i <= self.proxies@.len(),
                forall|j: int| 0 <= j < i ==> (#[trigger] self.proxies@[j]).proxy != sender,
                denom == self.config.denom,
                amount > 0,
            decreases self.proxies@.len() - i,
        {
            if self.proxies[i].proxy == sender {
                return Ok(self.proxies[i].owner);
            }
            i = i + 1;
        }
        proof {
            if self.has_owner(sender) {
                let j = choose|j: int|
                    0 <= j < self.proxies@.len() && (#[trigger] self.proxies@[j]).proxy == sender;
                assert(self.proxies@[j].proxy != sender);
            }
        }
        Err(ContractError::Unauthorized)
    }

    /// The proxy registered for an owner.
    pub fn proxy_by_owner(&self, owner: u64) -> (r: Result<u64, ContractError>)
        requires
            self.wf(),
        ensures
            self.has_proxy(owner) ==> r == Ok::<u64, ContractError>(self.proxy_of(owner)),
            !self.has_proxy(owner) ==> r == Err::<u64, ContractError>(
                ContractError::UnknownLienholder,
            ),
    {
        let (ix, found) = self.locate(owner);
        if !found {
            return Err(ContractError::UnknownLienholder);
        }
        Ok(self.proxies[ix].proxy)
    }

    /// The owner behind a proxy.
    pub fn owner_by_proxy(&self, proxy: u64) -> (r: Result<u64, ContractError>)
        requires
            self.wf(),
        ensures
            !self.has_owner(proxy) ==> r == Err::<u64, ContractError>(
                ContractError::UnknownLienholder,
            ),
            self.has_owner(proxy) ==> (r matches Ok(owner) && exists|i: int|
                0 <= i < self.proxies@.len() && (#[trigger] self.proxies@[i]).proxy == proxy
                    && self.proxies@[i].owner == owner),
    {
        let mut i: usize = 0;
        while i < self.proxies.len()
            invariant
                i <= self.proxies@.len(),
                forall|j: int| 0 <= j < i ==> (#[trigger] self.proxies@[j]).proxy != proxy,
            decreases self.proxies@.len() - i,
        {
            if self.proxies[i].proxy == proxy {
                return Ok(self.proxies[i].owner);
            }
            i = i + 1;
        }
        proof {
            if self.has_owner(proxy) {
                let j = choose|j: int|
                    0 <= j < self.proxies@.len() && (#[trigger] self.proxies@[j]).proxy == proxy;
                assert(self.proxies@[j].proxy != proxy);
            }
        }
        Err(ContractError::UnknownLienholder)
    }
}

} // verus!
