//! Per-user native staking proxy.
//!
//! One proxy fronts the chain's delegation module for one owner: it tracks
//! the delegated amount per validator, mirrors the unbonding queue of the
//! external-staking side, and on release sweeps matured unbonds so its
//! parent can return the tokens to the vault.

use vstd::prelude::*;
use crate::error::ContractError;
use crate::extstaking::{PendingUnbond, w_matured, keep_unmatured};
use crate::agg::{seq_sum, lemma_seq_sum_nonneg};

verus! {

/// Proxy configuration, fixed at instantiation.
#[derive(Debug, Clone, Copy, PartialEq, Eq, Structural)]
pub struct ProxyConfig {
    /// Denomination of the staked tokens.
    pub denom: u64,
    /// The native-staking router that instantiated this proxy.
    pub parent: u64,
    /// The user the proxy delegates for.
    pub owner: u64,
    /// Seconds an undelegation takes to mature.
    pub unbonding_period: u64,
}

/// One validator's delegated amount.
#[derive(Debug, Clone, Copy, PartialEq, Eq, Structural)]
pub struct Delegation {
    pub validator: u64,
    pub amount: u64,
}

/// The proxy's state.
#[derive(Debug, Clone, PartialEq, Eq)]
pub struct NativeStakingProxyContract {
    pub config: ProxyConfig,
    /// Delegations, sorted strictly ascending by validator.
    pub delegations: Vec<Delegation>,
    /// Unbonds not yet matured, oldest first.
    pub pending_unbonds: Vec<PendingUnbond>,
}

impl NativeStakingProxyContract {
    /// Delegations sorted strictly by validator.
    pub open spec fn wf(self) -> bool {
        forall|i: int, j: int|
            0 <= i < j < self.delegations@.len() ==> (#[trigger] self.delegations@[i]).validator
                < (#[trigger] self.delegations@[j]).validator
    }

    /// There is a delegation entry for the validator.
    pub open spec fn has_delegation(self, validator: u64) -> bool {
        exists|i: int|
            0 <= i < self.delegations@.len() && (#[trigger] self.delegations@[i]).validator
                == validator
    }

    /// Index of the validator's delegation entry.
    pub open spec fn delegation_ix(self, validator: u64) -> int {
        choose|i: int|
            0 <= i < self.delegations@.len() && (#[trigger] self.delegations@[i]).validator
                == validator
    }

    /// The delegated amount on the validator, zero when none.
    pub open spec fn delegation_of(self, validator: u64) -> int {
        if self.has_delegation(validator) {
            self.delegations@[self.delegation_ix(validator)].amount as int
        } else {
            0
        }
    }

    /// A fresh proxy with no delegations.
    pub fn new(config: ProxyConfig) -> (v: NativeStakingProxyContract)
        ensures
            v.wf(),
            v.config == config,
            v.delegations@.len() == 0,
            v.pending_unbonds@.len() == 0,
    {
        NativeStakingProxyContract {
            config,
            delegations: Vec::new(),
            pending_unbonds: Vec::new(),
        }
    }

    /// Finds where the validator sits in the sorted delegation table.
    fn locate(&self, validator: u64) -> (r: (usize, bool))
        requires
            self.wf(),
        ensures
            r.0 <= self.delegations@.len(),
            forall|i: int| 0 <= i < r.0 ==> (#[trigger] self.delegations@[i]).validator < validator,
            r.1 ==> r.0 < self.delegations@.len() && self.delegations@[r.0 as int].validator
                == validator && self.has_delegation(validator) && self.delegation_ix(validator)
                == r.0,
            !r.1 && r.0 < self.delegations@.len() ==> self.delegations@[r.0 as int].validator
                > validator,
            !r.1 ==> !self.has_delegation(validator),
    {
        let mut i: usize = 0;
        while i < self.delegations.len() && self.delegations[i].validator < validator
            invariant
                i <= self.delegations@.len(),
                forall|j: int| 0 <= j < i ==> (#[trigger] self.delegations@[j]).validator < validator,
            decreases self.delegations@.len() - i,
        {
            i = i + 1;
        }
        let found = i < self.delegations.len() && self.delegations[i].validator == validator;
        proof {
            if found {
                self.lemma_delegation_ix(i as int, validator);
            } else {
                if self.has_delegation(validator) {
                    let j = choose|j: int|
                        0 <= j < self.delegations@.len()
                            && (#[trigger] self.delegations@[j]).validator == validator;
                    if (i as int) < j {
                        assert(self.delegations@[i as int].validator
                            < self.delegations@[j].validator);
                    }
                }
            }
        }
        (i, found)
    }

    /// In the sorted table a validator determines its index.
    proof fn lemma_delegation_ix(self, i: int, validator: u64)
        requires
            self.wf(),
            0 <= i < self.delegations@.len(),
            self.delegations@[i].validator == validator,
        ensures
            self.has_delegation(validator),
            self.delegation_ix(validator) == i,
            self.delegation_of(validator) == self.delegations@[i].amount,
    {
        assert(self.has_delegation(validator));
        let j = self.delegation_ix(validator);
        if j < i {
            assert(self.delegations@[j].validator < self.delegations@[i].validator);
        } else if i < j {
            assert(self.delegations@[i].validator < self.delegations@[j].validator);
        }
    }

    /// After changing only the amount at one index, or inserting a fresh
    /// entry at its sorted place, the table stays sorted; the caller hands
    /// in the index facts from `locate`.
    proof fn lemma_upsert(self, pre: NativeStakingProxyContract, ix: int, validator: u64, insert: bool)
        requires
            pre.wf(),
            !insert ==> 0 <= ix < pre.delegations@.len() && pre.delegations@[ix].validator
                == validator && self.delegations@ == pre.delegations@.update(
                ix,
                self.delegations@[ix],
            ) && self.delegations@[ix].validator == validator,
            insert ==> 0 <= ix <= pre.delegations@.len() && !pre.has_delegation(validator)
                && (forall|i: int|
                0 <= i < ix ==> (#[trigger] pre.delegations@[i]).validator < validator) && (forall|
                i: int,
            |
                ix <= i < pre.delegations@.len() ==> (#[trigger] pre.delegations@[i]).validator
                    > validator) && self.delegations@ == pre.delegations@.insert(
                ix,
                self.delegations@[ix],
            ) && self.delegations@[ix].validator == validator,
        ensures
            self.wf(),
            self.has_delegation(validator),
            self.delegation_of(validator) == self.delegations@[ix].amount,
    {
        if insert {
            pre.delegations@.insert_ensures(ix, self.delegations@[ix]);
            assert forall|i: int, j: int| 0 <= i < j < self.delegations@.len()
                implies (#[trigger] self.delegations@[i]).validator
                    < (#[trigger] self.delegations@[j]).validator by {
                if j < ix {
                    assert(pre.delegations@[i].validator < pre.delegations@[j].validator);
                } else if j == ix {
                    assert(pre.delegations@[i].validator < validator);
                } else if i < ix {
                    assert(pre.delegations@[i].validator < validator);
                    assert(pre.delegations@[j - 1].validator > validator);
                } else if i == ix {
                    assert(pre.delegations@[j - 1].validator > validator);
                } else {
                    assert(pre.delegations@[i - 1].validator < pre.delegations@[j - 1].validator);
                }
            }
        } else {
            assert forall|i: int, j: int| 0 <= i < j < self.delegations@.len()
                implies (#[trigger] self.delegations@[i]).validator
                    < (#[trigger] self.delegations@[j]).validator by {
                assert(pre.delegations@[i].validator < pre.delegations@[j].validator);
            }
        }
        self.lemma_delegation_ix(ix, validator);
    }

    /// Delegates `amount` to the validator; only the parent router may
    /// call, with funds in the staking denomination.
    pub fn stake(&mut self, sender: u64, validator: u64, amount: u64, denom: u64) -> (r: Result<
        (),
        ContractError,
    >)
        requires
            old(self).wf(),
            old(self).delegation_of(validator) + amount <= u64::MAX,
        ensures
            final(self).wf(),
            sender != old(self).config.parent ==> r == Err::<(), ContractError>(
                ContractError::Unauthorized,
            ) && *final(self) == *old(self),
            sender == old(self).config.parent && denom != old(self).config.denom ==> r == Err::<
                (),
                ContractError,
            >(ContractError::UnexpectedDenom(old(self).config.denom)) && *final(self) == *old(
                self,
            ),
            sender == old(self).config.parent && denom == old(self).config.denom ==> ({
                &&& r == Ok::<(), ContractError>(())
                &&& final(self).has_delegation(validator)
                &&& final(self).delegation_of(validator) == old(self).delegation_of(validator)
                    + amount
                &&& final(self).config == old(self).config
                &&& final(self).pending_unbonds@ == old(self).pending_unbonds@
            }),
    {
        if sender != self.config.parent {
            return Err(ContractError::Unauthorized);
        }
        if denom != self.config.denom {
            return Err(ContractError::UnexpectedDenom(self.config.denom));
        }
        let ghost pre = *self;
        let (ix, found) = self.locate(validator);
        if found {
            let mut d = self.delegations.remove(ix);
            d.amount = d.amount + amount;
            self.delegations.insert(ix, d);
            proof {
                assert(self.delegations@ =~= pre.delegations@.update(
                    ix as int,
                    self.delegations@[ix as int],
                ));
                self.lemma_upsert(pre, ix as int, validator, false);
            }
        } else {
            self.delegations.insert(ix, Delegation { validator, amount });
            proof {
                self.lemma_upsert(pre, ix as int, validator, true);
            }
        }
        Ok(())
    }

    /// Moves `amount` of delegation from one validator to another; only the
    /// owner may call.  Fails with `InsufficientDelegation` when the source
    /// holds less.
    pub fn restake(
        &mut self,
        sender: u64,
        src_validator: u64,
        dst_validator: u64,
        amount: u64,
        denom: u64,
    ) -> (r: Result<(), ContractError>)
        requires
            old(self).wf(),
            old(self).delegation_of(dst_validator) + amount <= u64::MAX,
            src_validator != dst_validator,
        ensures
            final(self).wf(),
            sender != old(self).config.owner ==> r == Err::<(), ContractError>(
                ContractError::Unauthorized,
            ) && *final(self) == *old(self),
            sender == old(self).config.owner && denom != old(self).config.denom ==> r == Err::<
                (),
                ContractError,
            >(ContractError::InvalidDenom(denom)) && *final(self) == *old(self),
            sender == old(self).config.owner && denom == old(self).config.denom && old(
                self,
            ).delegation_of(src_validator) < amount ==> r == Err::<(), ContractError>(
                ContractError::InsufficientDelegation(
                    src_validator,
                    old(self).delegation_of(src_validator) as u64,
                ),
            ) && *final(self) == *old(self),
            sender == old(self).config.owner && denom == old(self).config.denom && old(
                self,
            ).delegation_of(src_validator) >= amount ==> ({
                &&& r == Ok::<(), ContractError>(())
                &&& final(self).delegation_of(src_validator) == old(self).delegation_of(
                    src_validator,
                ) - amount
                &&& final(self).delegation_of(dst_validator) == old(self).delegation_of(
                    dst_validator,
                ) + amount
            }),
    {
        if sender != self.config.owner {
            return Err(ContractError::Unauthorized);
        }
        if denom != self.config.denom {
            return Err(ContractError::InvalidDenom(denom));
        }
        let (six, sfound) = self.locate(src_validator);
        let have = if sfound {
            self.delegations[six].amount
        } else {
            0
        };
        proof {
            if sfound {
                self.lemma_delegation_ix(six as int, src_validator);
            }
        }
        if have < amount {
            return Err(ContractError::InsufficientDelegation(src_validator, have));
        }
        if amount == 0 {
            return Ok(());
        }
        let ghost pre = *self;
        proof {
            if !sfound {
                assert(false);
            }
        }
        let mut d = self.delegations.remove(six);
        d.amount = d.amount - amount;
        self.delegations.insert(six, d);
        proof {
            assert(self.delegations@ =~= pre.delegations@.update(
                six as int,
                self.delegations@[six as int],
            ));
            self.lemma_upsert(pre, six as int, src_validator, false);
        }
        let ghost mid = *self;
        proof {
            if mid.has_delegation(dst_validator) {
                let j = mid.delegation_ix(dst_validator);
                assert(mid.delegations@[j].validator == dst_validator);
                if pre.has_delegation(dst_validator) {
                    pre.lemma_delegation_ix(pre.delegation_ix(dst_validator), dst_validator);
                }
                if j != six as int {
                    assert(pre.delegations@[j] == mid.delegations@[j]);
                    pre.lemma_delegation_ix(j, dst_validator);
                }
            } else {
                if pre.has_delegation(dst_validator) {
                    let j = pre.delegation_ix(dst_validator);
                    pre.lemma_delegation_ix(j, dst_validator);
                    assert(mid.delegations@[j].validator == dst_validator);
                    mid.lemma_delegation_ix(j, dst_validator);
                }
            }
        }
        let (dix, dfound) = self.locate(dst_validator);
        if dfound {
            let mut d2 = self.delegations.remove(dix);
            d2.amount = d2.amount + amount;
            self.delegations.insert(dix, d2);
            proof {
                assert(self.delegations@ =~= mid.delegations@.update(
                    dix as int,
                    self.delegations@[dix as int],
                ));
                self.lemma_upsert(mid, dix as int, dst_validator, false);
                mid.lemma_delegation_ix(dix as int, dst_validator);
                if six as int != dix as int {
                    assert(mid.delegations@[six as int] == self.delegations@[six as int]);
                    self.lemma_delegation_ix(six as int, src_validator);
                }
            }
        } else {
            self.delegations.insert(dix, Delegation { validator: dst_validator, amount });
            proof {
                self.lemma_upsert(mid, dix as int, dst_validator, true);
                mid.delegations@.insert_ensures(
                    dix as int,
                    self.delegations@[dix as int],
                );
                if (six as int) < dix as int {
                    assert(self.delegations@[six as int] == mid.delegations@[six as int]);
                    self.lemma_delegation_ix(six as int, src_validator);
                } else {
                    assert(self.delegations@[six as int + 1] == mid.delegations@[six as int]);
                    self.lemma_delegation_ix(six as int + 1, src_validator);
                }
            }
        }
        Ok(())
    }

    /// Undelegates `amount` from the validator and queues the tokens to
    /// mature after the unbonding period; only the owner may call.
    pub fn unstake(&mut self, sender: u64, validator: u64, amount: u64, denom: u64, now: u64) -> (r:
        Result<(), ContractError>)
        requires
            old(self).wf(),
            now + old(self).config.unbonding_period <= u64::MAX,
        ensures
            final(self).wf(),
            sender != old(self).config.owner ==> r == Err::<(), ContractError>(
                ContractError::Unauthorized,
            ) && *final(self) == *old(self),
            sender == old(self).config.owner && denom != old(self).config.denom ==> r == Err::<
                (),
                ContractError,
            >(ContractError::InvalidDenom(denom)) && *final(self) == *old(self),
            sender == old(self).config.owner && denom == old(self).config.denom && old(
                self,
            ).delegation_of(validator) < amount ==> r == Err::<(), ContractError>(
                ContractError::InsufficientDelegation(
                    validator,
                    old(self).delegation_of(validator) as u64,
                ),
            ) && *final(self) == *old(self),
            sender == old(self).config.owner && denom == old(self).config.denom && old(
                self,
            ).delegation_of(validator) >= amount ==> r == Ok::<(), ContractError>(()),
            sender == old(self).config.owner && denom == old(self).config.denom && old(
                self,
            ).delegation_of(validator) >= amount ==> final(self).delegation_of(validator) == old(
                self,
            ).delegation_of(validator) - amount,
            sender == old(self).config.owner && denom == old(self).config.denom && old(
                self,
            ).delegation_of(validator) >= amount ==> final(self).pending_unbonds@ == old(
                self,
            ).pending_unbonds@.push(
                (PendingUnbond {
                    amount,
                    release_at: (now + old(self).config.unbonding_period) as u64,
                }),
            ),
            sender == old(self).config.owner && denom == old(self).config.denom && old(
                self,
            ).delegation_of(validator) >= amount ==> final(self).config == old(self).config,
    {
        if sender != self.config.owner {
            return Err(ContractError::Unauthorized);
        }
        if denom != self.config.denom {
            return Err(ContractError::InvalidDenom(denom));
        }
        let (ix, found) = self.locate(validator);
        let have = if found {
            self.delegations[ix].amount
        } else {
            0
        };
        proof {
            if found {
                self.lemma_delegation_ix(ix as int, validator);
            }
        }
        if have < amount {
            return Err(ContractError::InsufficientDelegation(validator, have));
        }
        let ghost pre = *self;
        if found {
            let mut d = self.delegations.remove(ix);
            d.amount = d.amount - amount;
            self.delegations.insert(ix, d);
            proof {
                assert(self.delegations@ =~= pre.delegations@.update(
                    ix as int,
                    self.delegations@[ix as int],
                ));
                self.lemma_upsert(pre, ix as int, validator, false);
            }
        }
        let release_at = now + self.config.unbonding_period;
        self.pending_unbonds.push(PendingUnbond { amount, release_at });
        proof {
            assert(self.pending_unbonds@ == old(self).pending_unbonds@.push(
                PendingUnbond { amount, release_at },
            ));
            if found {
                assert(self.delegations@ =~= pre.delegations@.update(
                    ix as int,
                    self.delegations@[ix as int],
                ));
                self.lemma_upsert(pre, ix as int, validator, false);
            } else {
                if self.has_delegation(validator) {
                    let j = self.delegation_ix(validator);
                    assert(self.delegations@[j].validator == validator);
                    assert(pre.delegations@[j].validator == validator);
                    assert(pre.has_delegation(validator));
                }
            }
        }
        Ok(())
    }

    /// Sweeps every matured unbond out of the queue and returns the liquid
    /// total, which the parent forwards to the vault; only the owner may
    /// call.
    pub fn release_unbonded(&mut self, sender: u64, now: u64) -> (r: Result<u64, ContractError>)
        requires
            old(self).wf(),
        ensures
            final(self).wf(),
            sender != old(self).config.owner ==> r == Err::<u64, ContractError>(
                ContractError::Unauthorized,
            ) && *final(self) == *old(self),
            sender == old(self).config.owner ==> ({
                let total = seq_sum(old(self).pending_unbonds@, w_matured(now));
                &&& r == Ok::<u64, ContractError>(
                    (if total > u64::MAX as int {
                        u64::MAX as int
                    } else {
                        total
                    }) as u64,
                )
                &&& final(self).pending_unbonds@ == keep_unmatured(
                    old(self).pending_unbonds@,
                    now,
                )
                &&& final(self).delegations@ == old(self).delegations@
                &&& final(self).config == old(self).config
            }),
    {
        if sender != self.config.owner {
            return Err(ContractError::Unauthorized);
        }
        let ghost q0 = self.pending_unbonds@;
        let mut kept: Vec<PendingUnbond> = Vec::new();
        let mut total: u128 = 0;
        let mut j: usize = 0;
        proof {
            assert(q0.take(0) =~= Seq::<PendingUnbond>::empty());
            assert forall|m: int| 0 <= m < q0.len() implies 0 <= (w_matured(now))(
                #[trigger] q0[m],
            ) by {
            }
        }
        while j < self.pending_unbonds.len()
            invariant
                j <= q0.len(),
                self.pending_unbonds@ == q0,
                kept@ == keep_unmatured(q0.take(j as int), now),
                total == (if seq_sum(q0.take(j as int), w_matured(now)) > u128::MAX as int {
                    u128::MAX as int
                } else {
                    seq_sum(q0.take(j as int), w_matured(now))
                }),
                forall|m: int| 0 <= m < q0.len() ==> 0 <= (w_matured(now))(#[trigger] q0[m]),
            decreases q0.len() - j,
        {
            proof {
                assert(q0.take(j + 1).drop_last() =~= q0.take(j as int));
                assert(q0.take(j + 1).last() == q0[j as int]);
                assert forall|m: int| 0 <= m < q0.take(j as int).len() implies 0 <= (w_matured(
                    now,
                ))(#[trigger] q0.take(j as int)[m]) by {
                    assert(q0.take(j as int)[m] == q0[m]);
                }
                lemma_seq_sum_nonneg(q0.take(j as int), w_matured(now));
            }
            let u = self.pending_unbonds[j];
            if u.release_at <= now {
                if total > u128::MAX - u.amount as u128 {
                    total = u128::MAX;
                } else {
                    total = total + u.amount as u128;
                }
                proof {
                    assert(keep_unmatured(q0.take(j + 1), now) =~= kept@);
                }
            } else {
                kept.push(u);
                proof {
                    assert(keep_unmatured(q0.take(j + 1), now) =~= kept@);
                }
            }
            j = j + 1;
        }
        proof {
            assert(q0.take(q0.len() as int) =~= q0);
        }
        self.pending_unbonds = kept;
        let out = if total > u64::MAX as u128 {
            u64::MAX
        } else {
            total as u64
        };
        Ok(out)
    }

    /// The validators a reward withdrawal touches: those with a delegation
    /// left.
    pub fn reward_validators(&self) -> (r: Vec<u64>)
        ensures
            r@ == spec_reward_validators(self.delegations@),
    {
        let mut out: Vec<u64> = Vec::new();
        let mut i: usize = 0;
        proof {
            assert(self.delegations@.take(0) =~= Seq::<Delegation>::empty());
            assert(spec_reward_validators(self.delegations@.take(0)) =~= out@);
        }
        while i < self.delegations.len()
            invariant
                i <= self.delegations@.len(),
                out@ == spec_reward_validators(self.delegations@.take(i as int)),
            decreases self.delegations@.len() - i,
        {
            proof {
                assert(self.delegations@.take(i + 1).drop_last() =~= self.delegations@.take(
                    i as int,
                ));
                assert(self.delegations@.take(i + 1).last() == self.delegations@[i as int]);
            }
            if self.delegations[i].amount > 0 {
                out.push(self.delegations[i].validator);
            }
            proof {
                assert(spec_reward_validators(self.delegations@.take(i + 1)) =~= out@);
            }
            i = i + 1;
        }
        proof {
            assert(self.delegations@.take(self.delegations@.len() as int) =~= self.delegations@);
        }
        out
    }
}

/// The validators holding a nonzero delegation, in table order.
pub open spec fn spec_reward_validators(ds: Seq<Delegation>) -> Seq<u64>
    decreases ds.len(),
{
    if ds.len() == 0 {
        Seq::empty()
    } else {
        spec_reward_validators(ds.drop_last()) + (if ds.last().amount > 0 {
            seq![ds.last().validator]
        } else {
            Seq::empty()
        })
    }
}

} // verus!
