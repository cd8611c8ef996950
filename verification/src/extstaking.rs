//! External-staking accounting: the provider-side mirror of one remote
//! staking system.
//!
//! Per (user, validator) pair it keeps the staked amount as an optimistic
//! range under the in-flight cross-chain transactions, a signed
//! points-alignment that keeps the reward mathematics exact across stake
//! changes, the rewards already withdrawn, and a queue of pending unbonds.
//! Per validator it keeps the total stake and the cumulative
//! points-per-stake accumulator, scaled by `SHARE_SCALE`, with the
//! sub-share remainder carried forward.

use vstd::prelude::*;
use crate::range::ValueRange;
use crate::ratio::{SlashRatio, spec_mul_floor, mul_floor, lemma_mul_floor_bounds};
use crate::error::ContractError;
use crate::agg::{
    seq_sum, lemma_seq_sum_remove, lemma_seq_sum_zero, lemma_seq_sum_nonneg,
    lemma_seq_sum_ge_elem, lemma_seq_sum_insert,
};

verus! {

/// Scale of the points-per-stake accumulator.
pub const SHARE_SCALE: u64 = 1_000_000_000;

/// Configuration of the external-staking contract.
#[derive(Debug, Clone, Copy, PartialEq, Eq, Structural)]
pub struct ExtConfig {
    /// Denomination of the (virtually) staked tokens.
    pub denom: u64,
    /// Denomination the rewards arrive in.
    pub rewards_denom: u64,
    /// Address of the vault this contract mirrors.
    pub vault: u64,
    /// Seconds between an unstake and the release of its tokens.
    pub unbonding_period: u64,
    /// Fraction the remote chain slashes misbehaving validators by.
    pub slash_ratio: SlashRatio,
}

/// An unstaked amount waiting out the unbonding period.
#[derive(Debug, Clone, Copy, PartialEq, Eq, Structural)]
pub struct PendingUnbond {
    pub amount: u64,
    /// Timestamp (seconds) at which the amount matures.
    pub release_at: u64,
}

/// One user's stake on one validator.
#[derive(Debug, Clone, PartialEq, Eq)]
pub struct Stake {
    pub user: u64,
    pub validator: u64,
    /// Staked amount: committed low end, in-flight high end.
    pub stake: ValueRange,
    /// Added part of the signed points alignment.
    pub points_plus: u128,
    /// Subtracted part of the signed points alignment.
    pub points_minus: u128,
    /// Rewards already paid out.
    pub withdrawn_funds: u64,
    /// Unbonds not yet matured, oldest first.
    pub pending_unbonds: Vec<PendingUnbond>,
}

/// Per-validator reward distribution state.
#[derive(Debug, Clone, Copy, PartialEq, Eq, Structural)]
pub struct Distribution {
    pub validator: u64,
    /// Total committed stake on the validator.
    pub total_stake: u64,
    /// Cumulative rewards per unit of stake, scaled by `SHARE_SCALE`.
    pub points_per_stake: u128,
    /// Sub-share remainder carried to the next distribution.
    pub points_leftover: u128,
}

/// Kind of an in-flight cross-chain operation.
#[derive(Debug, Clone, Copy, PartialEq, Eq, Structural)]
pub enum ExtTxType {
    InFlightRemoteStaking,
    InFlightRemoteUnstaking,
}

/// A journaled in-flight operation.
#[derive(Debug, Clone, Copy, PartialEq, Eq, Structural)]
pub struct ExtTx {
    pub id: u64,
    pub ty: ExtTxType,
    pub amount: u64,
    pub user: u64,
    pub validator: u64,
}

/// What a slashing event costs one user, handed back to the vault.
#[derive(Debug, Clone, Copy, PartialEq, Eq, Structural)]
pub struct SlashInfo {
    pub user: u64,
    pub slash: u64,
}

/// Strict lexicographic order on (user, validator) pairs.
pub open spec fn pair_lt(u1: u64, v1: u64, u2: u64, v2: u64) -> bool {
    u1 < u2 || (u1 == u2 && v1 < v2)
}

/// Weight picking the in-flight staking amounts of one pair.
pub open spec fn w_pair_staking(user: u64, validator: u64) -> spec_fn(ExtTx) -> int {
    |t: ExtTx|
        if t.ty == ExtTxType::InFlightRemoteStaking && t.user == user && t.validator == validator {
            t.amount as int
        } else {
            0 as int
        }
}

/// The reward a stake has earned before scaling: its share of the
/// accumulator, corrected by the signed alignment.
pub open spec fn reward_points(s: Stake, d: Distribution) -> int {
    d.points_per_stake * s.stake.0 + s.points_plus - s.points_minus
}

/// The reward mathematics stays consistent: the corrected points are never
/// negative and always cover what was already withdrawn.
pub open spec fn stake_reward_wf(s: Stake, d: Distribution) -> bool {
    &&& reward_points(s, d) >= 0
    &&& reward_points(s, d) / (SHARE_SCALE as int) >= s.withdrawn_funds
}

/// Weight picking the matured amount of one pending unbond.
pub open spec fn w_matured(now: u64) -> spec_fn(PendingUnbond) -> int {
    |u: PendingUnbond|
        if u.release_at <= now {
            u.amount as int
        } else {
            0 as int
        }
}

/// The queue without its matured entries, order kept.
pub open spec fn keep_unmatured(q: Seq<PendingUnbond>, now: u64) -> Seq<PendingUnbond>
    decreases q.len(),
{
    if q.len() == 0 {
        Seq::empty()
    } else {
        keep_unmatured(q.drop_last(), now) + (if q.last().release_at <= now {
            Seq::empty()
        } else {
            seq![q.last()]
        })
    }
}

/// Weight picking one user's matured unbond totals from a stake entry.
pub open spec fn w_user_released(user: u64, now: u64) -> spec_fn(Stake) -> int {
    |s: Stake|
        if s.user == user {
            seq_sum(s.pending_unbonds@, w_matured(now))
        } else {
            0 as int
        }
}

/// Weight picking the floored slash of one stake entry on a validator.
pub open spec fn w_validator_slash(validator: u64, ratio: SlashRatio) -> spec_fn(Stake) -> int {
    |s: Stake|
        if s.validator == validator {
            crate::ratio::spec_mul_floor(s.stake.0, ratio)
        } else {
            0 as int
        }
}

/// What one slashing event costs each staker of the validator, in stake
/// order.
pub open spec fn spec_slash_list(stakes: Seq<Stake>, validator: u64, ratio: SlashRatio) -> Seq<
    SlashInfo,
>
    decreases stakes.len(),
{
    if stakes.len() == 0 {
        Seq::empty()
    } else {
        spec_slash_list(stakes.drop_last(), validator, ratio) + (if stakes.last().validator
            == validator {
            seq![
                (SlashInfo {
                    user: stakes.last().user,
                    slash: crate::ratio::spec_mul_floor(stakes.last().stake.0, ratio) as u64,
                }),
            ]
        } else {
            Seq::empty()
        })
    }
}

/// The page of journal rows below `after` (exclusive), newest first, at
/// most `limit` entries.
pub open spec fn spec_ext_txs_page_desc(txs: Seq<ExtTx>, after: Option<u64>, limit: int) -> Seq<
    ExtTx,
>
    decreases txs.len(),
{
    if txs.len() == 0 || limit <= 0 {
        Seq::empty()
    } else {
        let h = txs.last();
        let skipped = (match after {
            Some(a) => h.id >= a,
            None => false,
        });
        if skipped {
            spec_ext_txs_page_desc(txs.drop_last(), after, limit)
        } else {
            seq![h] + spec_ext_txs_page_desc(txs.drop_last(), after, limit - 1)
        }
    }
}

/// One row of the paginated `stakes` query.
#[derive(Debug, Clone, Copy, PartialEq, Eq, Structural)]
pub struct StakeInfo {
    pub owner: u64,
    pub validator: u64,
    pub stake: ValueRange,
}

/// The page of one user's stakes with validator above `after` (exclusive),
/// at most `limit` entries, in table order.
pub open spec fn spec_stakes_page(
    stakes: Seq<Stake>,
    user: u64,
    after: Option<u64>,
    limit: int,
) -> Seq<StakeInfo>
    decreases stakes.len(),
{
    if stakes.len() == 0 || limit <= 0 {
        Seq::empty()
    } else {
        let h = stakes[0];
        let skipped = h.user != user || (match after {
            Some(a) => h.validator <= a,
            None => false,
        });
        if skipped {
            spec_stakes_page(stakes.skip(1), user, after, limit)
        } else {
            seq![(StakeInfo { owner: h.user, validator: h.validator, stake: h.stake })]
                + spec_stakes_page(stakes.skip(1), user, after, limit - 1)
        }
    }
}

/// The page of distinct users holding stake entries above `after`
/// (exclusive), at most `limit` of them, ascending: as the scan emits a
/// user it becomes the new lower bound, so each appears once.
pub open spec fn spec_users_page(stakes: Seq<Stake>, after: Option<u64>, limit: int) -> Seq<u64>
    decreases stakes.len(),
{
    if stakes.len() == 0 || limit <= 0 {
        Seq::empty()
    } else {
        let h = stakes[0];
        let skipped = (match after {
            Some(a) => h.user <= a,
            None => false,
        });
        if skipped {
            spec_users_page(stakes.skip(1), after, limit)
        } else {
            seq![h.user] + spec_users_page(stakes.skip(1), Some(h.user), limit - 1)
        }
    }
}

/// `post` is `pre` with its last entry of the given amount removed: `p`
/// points at that entry and nothing behind it carries the amount.
pub open spec fn unbond_removed_last(
    post: Seq<PendingUnbond>,
    pre: Seq<PendingUnbond>,
    amount: u64,
    p: int,
) -> bool {
    &&& 0 <= p < pre.len()
    &&& pre[p].amount == amount
    &&& (forall|q: int| p < q < pre.len() ==> (#[trigger] pre[q]).amount != amount)
    &&& post == pre.remove(p)
}

/// `post` is `pre` with one entry inserted at `q`: everything below keeps
/// its place, everything at or above shifts up by one.
pub open spec fn stakes_inserted_at(post: Seq<Stake>, pre: Seq<Stake>, q: int) -> bool {
    &&& 0 <= q <= pre.len()
    &&& post.len() == pre.len() + 1
    &&& (forall|i: int| 0 <= i < q ==> (#[trigger] post[i]) == pre[i])
    &&& (forall|i: int| q <= i < pre.len() ==> (#[trigger] post[i + 1]) == pre[i])
}

/// The whole reward owed to a stake, before subtracting withdrawals.
pub open spec fn spec_reward_total(s: Stake, d: Distribution) -> int {
    reward_points(s, d) / (SHARE_SCALE as int)
}

/// Law: a distribution to a validator whose whole stake belongs to one
/// staker raises that staker's owed reward by exactly the distributed
/// amount, whenever the scaled amount divides evenly by the total stake.
/// (Otherwise the sub-share remainder — less than one token unit per
/// `SHARE_SCALE` of stake — is carried forward to the next distribution, so
/// nothing is ever lost across distributions.)
pub proof fn lemma_sole_staker_payout(s: Stake, d: Distribution, x: u64)
    requires
        stake_reward_wf(s, d),
        s.stake.0 == d.total_stake,
        d.total_stake > 0,
        d.points_leftover == 0,
        (x * SHARE_SCALE) % (d.total_stake as int) == 0,
        d.points_per_stake + (x * SHARE_SCALE) / (d.total_stake as int) <= u128::MAX,
    ensures
        ({
            let delta = (x * SHARE_SCALE) / (d.total_stake as int);
            let d2 = Distribution {
                points_per_stake: (d.points_per_stake + delta) as u128,
                points_leftover: 0,
                ..d
            };
            spec_reward_total(s, d2) == spec_reward_total(s, d) + x
        }),
{
    let scale = SHARE_SCALE as int;
    let tot = d.total_stake as int;
    let xs = x * scale;
    let delta = xs / tot;
    assert(delta * tot == xs) by (nonlinear_arith)
        requires
            tot > 0,
            xs >= 0,
            xs % tot == 0,
            delta == xs / tot,
    {
    }
    let p1 = reward_points(s, d);
    assert((d.points_per_stake + delta) * s.stake.0 == d.points_per_stake * s.stake.0 + delta
        * s.stake.0) by (nonlinear_arith);
    assert(delta * s.stake.0 == xs);
    let d2 = Distribution {
        points_per_stake: (d.points_per_stake + delta) as u128,
        points_leftover: 0,
        ..d
    };
    assert(reward_points(s, d2) == p1 + x * scale);
    assert((p1 + x * scale) / scale == p1 / scale + x) by (nonlinear_arith)
        requires
            scale > 0,
            p1 >= 0,
    {
    }
    assert(scale == 1_000_000_000int);
}

/// The external-staking contract's whole state.
#[derive(Debug, Clone, PartialEq, Eq)]
pub struct ExternalStakingContract {
    pub config: ExtConfig,
    /// Stakes, sorted strictly ascending by (user, validator).
    pub stakes: Vec<Stake>,
    /// Distributions, sorted strictly ascending by validator.
    pub distributions: Vec<Distribution>,
    /// In-flight transactions, sorted strictly ascending by id.
    pub pending_txs: Vec<ExtTx>,
    /// Upper bound of every journal id seen or handed out.
    pub tx_count: u64,
}

impl ExternalStakingContract {
    /// Stakes sorted strictly by pair.
    pub open spec fn stakes_sorted(self) -> bool {
        forall|i: int, j: int|
            0 <= i < j < self.stakes@.len() ==> pair_lt(
                (#[trigger] self.stakes@[i]).user,
                self.stakes@[i].validator,
                (#[trigger] self.stakes@[j]).user,
                self.stakes@[j].validator,
            )
    }

    /// Distributions sorted strictly by validator.
    pub open spec fn dists_sorted(self) -> bool {
        forall|i: int, j: int|
            0 <= i < j < self.distributions@.len()
                ==> (#[trigger] self.distributions@[i]).validator
                < (#[trigger] self.distributions@[j]).validator
    }

    /// Journal sorted strictly by id, ids bounded by the counter.
    pub open spec fn txs_sorted(self) -> bool {
        &&& forall|i: int, j: int|
            0 <= i < j < self.pending_txs@.len()
                ==> (#[trigger] self.pending_txs@[i]).id < (#[trigger] self.pending_txs@[j]).id
        &&& forall|i: int|
            0 <= i < self.pending_txs@.len() ==> (#[trigger] self.pending_txs@[i]).id
                <= self.tx_count
    }

    /// There is a stake entry for the pair.
    pub open spec fn has_stake(self, user: u64, validator: u64) -> bool {
        exists|i: int|
            0 <= i < self.stakes@.len() && (#[trigger] self.stakes@[i]).user == user
                && self.stakes@[i].validator == validator
    }

    /// Index of the pair's stake entry.
    pub open spec fn stake_ix(self, user: u64, validator: u64) -> int {
        choose|i: int|
            0 <= i < self.stakes@.len() && (#[trigger] self.stakes@[i]).user == user
                && self.stakes@[i].validator == validator
    }

    /// The pair's stake entry.
    pub open spec fn stake_at(self, user: u64, validator: u64) -> Stake {
        self.stakes@[self.stake_ix(user, validator)]
    }

    /// There is a distribution for the validator.
    pub open spec fn has_dist(self, validator: u64) -> bool {
        exists|i: int|
            0 <= i < self.distributions@.len() && (#[trigger] self.distributions@[i]).validator
                == validator
    }

    /// Index of the validator's distribution.
    pub open spec fn dist_ix(self, validator: u64) -> int {
        choose|i: int|
            0 <= i < self.distributions@.len() && (#[trigger] self.distributions@[i]).validator
                == validator
    }

    /// The validator's distribution.
    pub open spec fn dist_at(self, validator: u64) -> Distribution {
        self.distributions@[self.dist_ix(validator)]
    }

    /// There is a pending transaction under the id.
    pub open spec fn has_tx(self, tx_id: u64) -> bool {
        exists|k: int|
            0 <= k < self.pending_txs@.len() && (#[trigger] self.pending_txs@[k]).id == tx_id
    }

    /// Index of the pending transaction under the id.
    pub open spec fn tx_ix(self, tx_id: u64) -> int {
        choose|k: int|
            0 <= k < self.pending_txs@.len() && (#[trigger] self.pending_txs@[k]).id == tx_id
    }

    /// The pending transaction under the id.
    pub open spec fn tx_at(self, tx_id: u64) -> ExtTx {
        self.pending_txs@[self.tx_ix(tx_id)]
    }

    /// The pair of a journal row has a stake entry and a distribution.
    pub open spec fn tx_anchored(self, t: ExtTx) -> bool {
        &&& self.has_stake(t.user, t.validator)
        &&& self.has_dist(t.validator)
    }

    /// One stake entry's well-formedness: a valid range whose optimistic
    /// end exceeds the committed one by exactly the pair's in-flight
    /// staking amounts, a distribution to settle rewards against, and
    /// consistent reward mathematics.
    pub open spec fn stake_wf(self, s: Stake) -> bool {
        &&& s.stake.wf()
        &&& s.stake.1 == s.stake.0 + seq_sum(
            self.pending_txs@,
            w_pair_staking(s.user, s.validator),
        )
        &&& self.has_dist(s.validator)
        &&& stake_reward_wf(s, self.dist_at(s.validator))
    }

    /// Whole-contract well-formedness.
    pub open spec fn wf(self) -> bool {
        &&& self.stakes_sorted()
        &&& self.dists_sorted()
        &&& self.txs_sorted()
        &&& forall|i: int| 0 <= i < self.stakes@.len() ==> self.stake_wf(#[trigger] self.stakes@[i])
        &&& forall|k: int|
            0 <= k < self.pending_txs@.len() ==> self.tx_anchored(#[trigger] self.pending_txs@[k])
        &&& self.config.slash_ratio.wf()
    }

    /// Some in-flight operation belongs to the user: a sweep over their
    /// stakes must wait for it to resolve.
    pub open spec fn user_locked(self, user: u64) -> bool {
        exists|k: int|
            0 <= k < self.pending_txs@.len() && (#[trigger] self.pending_txs@[k]).user == user
    }

    /// There is an in-flight operation on the pair: writes must serialize.
    pub open spec fn pair_locked(self, user: u64, validator: u64) -> bool {
        exists|k: int|
            0 <= k < self.pending_txs@.len() && (#[trigger] self.pending_txs@[k]).user == user
                && self.pending_txs@[k].validator == validator
    }
}

/// In a sorted stake table a pair determines its index.
pub proof fn lemma_stake_ix_unique(v: ExternalStakingContract, i: int, user: u64, validator: u64)
    requires
        v.stakes_sorted(),
        0 <= i < v.stakes@.len(),
        v.stakes@[i].user == user,
        v.stakes@[i].validator == validator,
    ensures
        v.has_stake(user, validator),
        v.stake_ix(user, validator) == i,
        v.stake_at(user, validator) == v.stakes@[i],
{
    assert(v.has_stake(user, validator));
    let j = v.stake_ix(user, validator);
    if j < i {
        assert(pair_lt(v.stakes@[j].user, v.stakes@[j].validator, v.stakes@[i].user, v.stakes@[i].validator));
    } else if i < j {
        assert(pair_lt(v.stakes@[i].user, v.stakes@[i].validator, v.stakes@[j].user, v.stakes@[j].validator));
    }
}

/// In a sorted distribution table a validator determines its index.
pub proof fn lemma_dist_ix_unique(v: ExternalStakingContract, i: int, validator: u64)
    requires
        v.dists_sorted(),
        0 <= i < v.distributions@.len(),
        v.distributions@[i].validator == validator,
    ensures
        v.has_dist(validator),
        v.dist_ix(validator) == i,
        v.dist_at(validator) == v.distributions@[i],
{
    assert(v.has_dist(validator));
    let j = v.dist_ix(validator);
    if j < i {
        assert(v.distributions@[j].validator < v.distributions@[i].validator);
    } else if i < j {
        assert(v.distributions@[i].validator < v.distributions@[j].validator);
    }
}

/// In a sorted journal an id determines its index.
pub proof fn lemma_ext_tx_ix_unique(v: ExternalStakingContract, k: int, tx_id: u64)
    requires
        v.txs_sorted(),
        0 <= k < v.pending_txs@.len(),
        v.pending_txs@[k].id == tx_id,
    ensures
        v.has_tx(tx_id),
        v.tx_ix(tx_id) == k,
        v.tx_at(tx_id) == v.pending_txs@[k],
{
    assert(v.has_tx(tx_id));
    let j = v.tx_ix(tx_id);
    if j < k {
        assert(v.pending_txs@[j].id < v.pending_txs@[k].id);
    } else if k < j {
        assert(v.pending_txs@[k].id < v.pending_txs@[j].id);
    }
}

impl ExternalStakingContract {
    /// An empty contract under the given configuration.
    pub fn new(config: ExtConfig) -> (v: ExternalStakingContract)
        requires
            config.slash_ratio.wf(),
        ensures
            v.wf(),
            v.config == config,
            v.stakes@.len() == 0,
            v.distributions@.len() == 0,
            v.pending_txs@.len() == 0,
            v.tx_count == 0,
    {
        ExternalStakingContract {
            config,
            stakes: Vec::new(),
            distributions: Vec::new(),
            pending_txs: Vec::new(),
            tx_count: 0,
        }
    }

    /// Finds where the pair sits in the sorted stake table.
    fn locate_stake(&self, user: u64, validator: u64) -> (r: (usize, bool))
        requires
            self.stakes_sorted(),
        ensures
            r.0 <= self.stakes@.len(),
            forall|i: int|
                0 <= i < r.0 ==> pair_lt(
                    (#[trigger] self.stakes@[i]).user,
                    self.stakes@[i].validator,
                    user,
                    validator,
                ),
            r.1 ==> r.0 < self.stakes@.len() && self.stakes@[r.0 as int].user == user
                && self.stakes@[r.0 as int].validator == validator && self.has_stake(
                user,
                validator,
            ) && self.stake_ix(user, validator) == r.0,
            !r.1 && r.0 < self.stakes@.len() ==> pair_lt(
                user,
                validator,
                self.stakes@[r.0 as int].user,
                self.stakes@[r.0 as int].validator,
            ),
            !r.1 ==> !self.has_stake(user, validator),
    {
        let mut i: usize = 0;
        while i < self.stakes.len() && (self.stakes[i].user < user || (self.stakes[i].user == user
            && self.stakes[i].validator < validator))
            invariant
                i <= self.stakes@.len(),
                forall|j: int|
                    0 <= j < i ==> pair_lt(
                        (#[trigger] self.stakes@[j]).user,
                        self.stakes@[j].validator,
                        user,
                        validator,
                    ),
            decreases self.stakes@.len() - i,
        {
            i = i + 1;
        }
        let found = i < self.stakes.len() && self.stakes[i].user == user
            && self.stakes[i].validator == validator;
        proof {
            if found {
                lemma_stake_ix_unique(*self, i as int, user, validator);
            } else {
                if self.has_stake(user, validator) {
                    let j = choose|j: int|
                        0 <= j < self.stakes@.len() && (#[trigger] self.stakes@[j]).user == user
                            && self.stakes@[j].validator == validator;
                    if j < (i as int) {
                        assert(pair_lt(user, validator, user, validator));
                    } else if (i as int) < j {
                        assert(pair_lt(
                            self.stakes@[i as int].user,
                            self.stakes@[i as int].validator,
                            user,
                            validator,
                        ) || pair_lt(
                            user,
                            validator,
                            self.stakes@[i as int].user,
                            self.stakes@[i as int].validator,
                        ));
                        assert(pair_lt(
                            self.stakes@[i as int].user,
                            self.stakes@[i as int].validator,
                            self.stakes@[j].user,
                            self.stakes@[j].validator,
                        ));
                    }
                }
            }
        }
        (i, found)
    }

    /// Finds where the validator sits in the sorted distribution table.
    fn locate_dist(&self, validator: u64) -> (r: (usize, bool))
        requires
            self.dists_sorted(),
        ensures
            r.0 <= self.distributions@.len(),
            forall|i: int|
                0 <= i < r.0 ==> (#[trigger] self.distributions@[i]).validator < validator,
            r.1 ==> r.0 < self.distributions@.len() && self.distributions@[r.0 as int].validator
                == validator && self.has_dist(validator) && self.dist_ix(validator) == r.0,
            !r.1 && r.0 < self.distributions@.len() ==> self.distributions@[r.0 as int].validator
                > validator,
            !r.1 ==> !self.has_dist(validator),
    {
        let mut i: usize = 0;
        while i < self.distributions.len() && self.distributions[i].validator < validator
            invariant
                i <= self.distributions@.len(),
                forall|j: int|
                    0 <= j < i ==> (#[trigger] self.distributions@[j]).validator < validator,
            decreases self.distributions@.len() - i,
        {
            i = i + 1;
        }
        let found = i < self.distributions.len() && self.distributions[i].validator == validator;
        proof {
            if found {
                lemma_dist_ix_unique(*self, i as int, validator);
            } else {
                if self.has_dist(validator) {
                    let j = choose|j: int|
                        0 <= j < self.distributions@.len()
                            && (#[trigger] self.distributions@[j]).validator == validator;
                    if (i as int) < j {
                        assert(self.distributions@[i as int].validator
                            < self.distributions@[j].validator);
                    }
                }
            }
        }
        (i, found)
    }

    /// Finds the journal index of the transaction under `tx_id`, or where
    /// it would be inserted.
    fn locate_tx(&self, tx_id: u64) -> (r: (usize, bool))
        requires
            self.txs_sorted(),
        ensures
            r.0 <= self.pending_txs@.len(),
            forall|i: int| 0 <= i < r.0 ==> (#[trigger] self.pending_txs@[i]).id < tx_id,
            r.1 ==> r.0 < self.pending_txs@.len() && self.pending_txs@[r.0 as int].id == tx_id
                && self.has_tx(tx_id) && self.tx_ix(tx_id) == r.0,
            !r.1 && r.0 < self.pending_txs@.len() ==> self.pending_txs@[r.0 as int].id > tx_id,
            !r.1 ==> !self.has_tx(tx_id),
    {
        let mut i: usize = 0;
        while i < self.pending_txs.len() && self.pending_txs[i].id < tx_id
            invariant
                i <= self.pending_txs@.len(),
                forall|j: int| 0 <= j < i ==> (#[trigger] self.pending_txs@[j]).id < tx_id,
            decreases self.pending_txs@.len() - i,
        {
            i = i + 1;
        }
        let found = i < self.pending_txs.len() && self.pending_txs[i].id == tx_id;
        proof {
            if found {
                lemma_ext_tx_ix_unique(*self, i as int, tx_id);
            } else {
                if self.has_tx(tx_id) {
                    let j = choose|j: int|
                        0 <= j < self.pending_txs@.len() && (#[trigger] self.pending_txs@[j]).id
                            == tx_id;
                    if (i as int) < j {
                        assert(self.pending_txs@[i as int].id < self.pending_txs@[j].id);
                    }
                }
            }
        }
        (i, found)
    }

    /// Commits a pending remote stake after the transport acknowledged it:
    /// the committed end of the stake catches up, the points alignment
    /// absorbs the change so no past rewards are granted to it, the
    /// validator's total stake grows, and the journal row is removed.
    #[verifier::rlimit(100)]
    pub fn commit_stake(&mut self, tx_id: u64) -> (r: Result<(), ContractError>)
        requires
            old(self).wf(),
            old(self).has_tx(tx_id) && old(self).tx_at(tx_id).ty
                == ExtTxType::InFlightRemoteStaking ==> ({
                let t = old(self).tx_at(tx_id);
                &&& old(self).stake_at(t.user, t.validator).points_minus + old(self).dist_at(
                    t.validator,
                ).points_per_stake * t.amount <= u128::MAX
                &&& old(self).dist_at(t.validator).total_stake + t.amount <= u64::MAX
            }),
        ensures
            final(self).wf(),
            !(old(self).has_tx(tx_id) && old(self).tx_at(tx_id).ty
                == ExtTxType::InFlightRemoteStaking) ==> r == Err::<(), ContractError>(
                ContractError::UnknownTx(tx_id),
            ) && *final(self) == *old(self),
            old(self).has_tx(tx_id) && old(self).tx_at(tx_id).ty
                == ExtTxType::InFlightRemoteStaking ==> ({
                let t = old(self).tx_at(tx_id);
                let s0 = old(self).stake_at(t.user, t.validator);
                let d0 = old(self).dist_at(t.validator);
                &&& r == Ok::<(), ContractError>(())
                &&& final(self).pending_txs@ == old(self).pending_txs@.remove(
                    old(self).tx_ix(tx_id),
                )
                &&& final(self).stakes@ == old(self).stakes@.update(
                    old(self).stake_ix(t.user, t.validator),
                    (Stake {
                        stake: ValueRange((s0.stake.0 + t.amount) as u64, s0.stake.1),
                        points_minus: (s0.points_minus + d0.points_per_stake * t.amount) as u128,
                        ..s0
                    }),
                )
                &&& final(self).distributions@ == old(self).distributions@.update(
                    old(self).dist_ix(t.validator),
                    (Distribution { total_stake: (d0.total_stake + t.amount) as u64, ..d0 }),
                )
                &&& final(self).config == old(self).config
                &&& final(self).tx_count == old(self).tx_count
            }),
    {
        let (k, kfound) = self.locate_tx(tx_id);
        if !kfound {
            return Err(ContractError::UnknownTx(tx_id));
        }
        let t = self.pending_txs[k];
        match t.ty {
            ExtTxType::InFlightRemoteUnstaking => {
                return Err(ContractError::UnknownTx(tx_id));
            }
            ExtTxType::InFlightRemoteStaking => {
            }
        }
        let ghost pre = *self;
        proof {
            assert(pre.tx_anchored(pre.pending_txs@[k as int]));
        }
        let (six, sfound) = self.locate_stake(t.user, t.validator);
        let (dix, dfound) = self.locate_dist(t.validator);
        proof {
            if !sfound || !dfound {
                assert(false);
            }
            assert(pre.stake_wf(pre.stakes@[six as int]));
            lemma_seq_sum_ge_elem(
                pre.pending_txs@,
                k as int,
                w_pair_staking(t.user, t.validator),
            );
        }
        let pps = self.distributions[dix].points_per_stake;
        let mut stake = self.stakes.remove(six);
        proof {
            assert(pps * t.amount >= 0) by (nonlinear_arith);
        }
        stake.stake.0 = stake.stake.0 + t.amount;
        stake.points_minus = stake.points_minus + pps * t.amount as u128;
        self.stakes.insert(six, stake);
        let mut dist = self.distributions.remove(dix);
        dist.total_stake = dist.total_stake + t.amount;
        self.distributions.insert(dix, dist);
        self.pending_txs.remove(k);
        proof {
            let s0 = pre.stakes@[six as int];
            let d0 = pre.distributions@[dix as int];
            let s1 = self.stakes@[six as int];
            let d1 = self.distributions@[dix as int];
            assert(self.stakes@ =~= pre.stakes@.update(six as int, s1));
            assert(self.distributions@ =~= pre.distributions@.update(dix as int, d1));
            assert(d0.points_per_stake * (s0.stake.0 + t.amount) == d0.points_per_stake
                * s0.stake.0 + d0.points_per_stake * t.amount) by (nonlinear_arith);
            lemma_seq_sum_remove(pre.pending_txs@, k as int, w_pair_staking(t.user, t.validator));
            self.lemma_resolve_frame(pre, six as int, dix as int, k as int);
        }
        Ok(())
    }

    /// Rolls back a pending remote stake after the transport reported
    /// failure: the reservation on the optimistic end is withdrawn and the
    /// journal row removed; nothing else changes.
    #[verifier::rlimit(100)]
    pub fn rollback_stake(&mut self, tx_id: u64) -> (r: Result<(), ContractError>)
        requires
            old(self).wf(),
        ensures
            final(self).wf(),
            !(old(self).has_tx(tx_id) && old(self).tx_at(tx_id).ty
                == ExtTxType::InFlightRemoteStaking) ==> r == Err::<(), ContractError>(
                ContractError::UnknownTx(tx_id),
            ) && *final(self) == *old(self),
            old(self).has_tx(tx_id) && old(self).tx_at(tx_id).ty
                == ExtTxType::InFlightRemoteStaking ==> ({
                let t = old(self).tx_at(tx_id);
                let s0 = old(self).stake_at(t.user, t.validator);
                &&& r == Ok::<(), ContractError>(())
                &&& final(self).pending_txs@ == old(self).pending_txs@.remove(
                    old(self).tx_ix(tx_id),
                )
                &&& final(self).stakes@ == old(self).stakes@.update(
                    old(self).stake_ix(t.user, t.validator),
                    (Stake {
                        stake: ValueRange(s0.stake.0, (s0.stake.1 - t.amount) as u64),
                        ..s0
                    }),
                )
                &&& final(self).distributions@ == old(self).distributions@
                &&& final(self).config == old(self).config
                &&& final(self).tx_count == old(self).tx_count
            }),
    {
        let (k, kfound) = self.locate_tx(tx_id);
        if !kfound {
            return Err(ContractError::UnknownTx(tx_id));
        }
        let t = self.pending_txs[k];
        match t.ty {
            ExtTxType::InFlightRemoteUnstaking => {
                return Err(ContractError::UnknownTx(tx_id));
            }
            ExtTxType::InFlightRemoteStaking => {
            }
        }
        let ghost pre = *self;
        proof {
            assert(pre.tx_anchored(pre.pending_txs@[k as int]));
        }
        let (six, sfound) = self.locate_stake(t.user, t.validator);
        let (dix, dfound) = self.locate_dist(t.validator);
        proof {
            if !sfound || !dfound {
                assert(false);
            }
            assert(pre.stake_wf(pre.stakes@[six as int]));
            lemma_seq_sum_ge_elem(
                pre.pending_txs@,
                k as int,
                w_pair_staking(t.user, t.validator),
            );
        }
        let mut stake = self.stakes.remove(six);
        stake.stake.1 = stake.stake.1 - t.amount;
        self.stakes.insert(six, stake);
        self.pending_txs.remove(k);
        proof {
            let s1 = self.stakes@[six as int];
            assert(self.stakes@ =~= pre.stakes@.update(six as int, s1));
            assert(pre.distributions@.update(dix as int, pre.distributions@[dix as int])
                =~= pre.distributions@);
            lemma_seq_sum_remove(pre.pending_txs@, k as int, w_pair_staking(t.user, t.validator));
            self.lemma_resolve_frame(pre, six as int, dix as int, k as int);
        }
        Ok(())
    }

    /// The shared frame of resolving one journal row: with the row's stake
    /// entry updated in place (pair kept, reward mathematics kept), the
    /// row's distribution possibly updated (validator and accumulator
    /// kept), and the row removed, the contract is well formed again.
    #[verifier::rlimit(100)]
    proof fn lemma_resolve_frame(
        self,
        pre: ExternalStakingContract,
        six: int,
        dix: int,
        k: int,
    )
        requires
            pre.wf(),
            0 <= six < pre.stakes@.len(),
            0 <= dix < pre.distributions@.len(),
            0 <= k < pre.pending_txs@.len(),
            pre.pending_txs@[k].user == pre.stakes@[six].user,
            pre.pending_txs@[k].validator == pre.stakes@[six].validator,
            pre.pending_txs@[k].validator == pre.distributions@[dix].validator,
            self.stakes@ == pre.stakes@.update(six, self.stakes@[six]),
            self.distributions@ == pre.distributions@.update(dix, self.distributions@[dix]),
            self.pending_txs@ == pre.pending_txs@.remove(k),
            self.tx_count == pre.tx_count,
            self.config == pre.config,
            self.stakes@[six].user == pre.stakes@[six].user,
            self.stakes@[six].validator == pre.stakes@[six].validator,
            self.distributions@[dix].validator == pre.distributions@[dix].validator,
            self.distributions@[dix].points_per_stake == pre.distributions@[dix].points_per_stake,
            self.stakes@[six].stake.wf(),
            self.stakes@[six].stake.1 == self.stakes@[six].stake.0 + seq_sum(
                self.pending_txs@,
                w_pair_staking(self.stakes@[six].user, self.stakes@[six].validator),
            ),
            reward_points(self.stakes@[six], self.distributions@[dix]) == reward_points(
                pre.stakes@[six],
                pre.distributions@[dix],
            ),
            self.stakes@[six].withdrawn_funds == pre.stakes@[six].withdrawn_funds,
        ensures
            self.wf(),
    {
        pre.pending_txs@.remove_ensures(k);
        let t = pre.pending_txs@[k];
        assert forall|i: int, j: int| 0 <= i < j < self.stakes@.len() implies pair_lt(
            (#[trigger] self.stakes@[i]).user,
            self.stakes@[i].validator,
            (#[trigger] self.stakes@[j]).user,
            self.stakes@[j].validator,
        ) by {
            assert(pair_lt(
                pre.stakes@[i].user,
                pre.stakes@[i].validator,
                pre.stakes@[j].user,
                pre.stakes@[j].validator,
            ));
        }
        assert forall|i: int, j: int| 0 <= i < j < self.distributions@.len()
            implies (#[trigger] self.distributions@[i]).validator
                < (#[trigger] self.distributions@[j]).validator by {
            assert(pre.distributions@[i].validator < pre.distributions@[j].validator);
        }
        assert forall|i: int, j: int| 0 <= i < j < self.pending_txs@.len()
            implies (#[trigger] self.pending_txs@[i]).id
                < (#[trigger] self.pending_txs@[j]).id by {
            let pi = if i < k {
                i
            } else {
                i + 1
            };
            let pj = if j < k {
                j
            } else {
                j + 1
            };
            assert(pre.pending_txs@[pi].id < pre.pending_txs@[pj].id);
        }
        assert forall|i: int| 0 <= i < self.pending_txs@.len()
            implies (#[trigger] self.pending_txs@[i]).id <= self.tx_count by {
            let pi = if i < k {
                i
            } else {
                i + 1
            };
            assert(self.pending_txs@[i] == pre.pending_txs@[pi]);
        }
        assert forall|i: int| 0 <= i < self.stakes@.len() implies self.stake_wf(
            #[trigger] self.stakes@[i],
        ) by {
            let s = self.stakes@[i];
            assert(pre.stake_wf(pre.stakes@[i]));
            let pdix = pre.dist_ix(pre.stakes@[i].validator);
            lemma_dist_ix_unique(pre, pdix, pre.stakes@[i].validator);
            if i != six {
                // the removed row belongs to another pair, so its weight is
                // zero in this entry's sum
                lemma_seq_sum_remove(
                    pre.pending_txs@,
                    k,
                    w_pair_staking(s.user, s.validator),
                );
                if t.user == s.user && t.validator == s.validator {
                    lemma_stake_ix_unique(pre, i, s.user, s.validator);
                    lemma_stake_ix_unique(pre, six, s.user, s.validator);
                    assert(false);
                }
            }
            // the distribution this entry settles against kept its
            // accumulator
            if pdix == dix {
                lemma_dist_ix_unique(self, dix, s.validator);
                assert(reward_points(s, self.dist_at(s.validator)) == reward_points(
                    pre.stakes@[i],
                    pre.dist_at(s.validator),
                ));
            } else {
                assert(self.distributions@[pdix] == pre.distributions@[pdix]);
                lemma_dist_ix_unique(self, pdix, s.validator);
            }
        }
        assert forall|i: int| 0 <= i < self.pending_txs@.len() implies self.tx_anchored(
            #[trigger] self.pending_txs@[i],
        ) by {
            let pi = if i < k {
                i
            } else {
                i + 1
            };
            let t2 = pre.pending_txs@[pi];
            assert(pre.tx_anchored(t2));
            let psix = pre.stake_ix(t2.user, t2.validator);
            lemma_stake_ix_unique(
                pre,
                psix,
                t2.user,
                t2.validator,
            );
            assert(self.stakes@[psix].user == t2.user && self.stakes@[psix].validator
                == t2.validator);
            assert(self.has_stake(t2.user, t2.validator));
            let pdix2 = pre.dist_ix(t2.validator);
            lemma_dist_ix_unique(pre, pdix2, t2.validator);
            assert(self.distributions@[pdix2].validator == t2.validator);
            assert(self.has_dist(t2.validator));
        }
    }

    /// Inserting a fresh distribution at its sorted place leaves the
    /// contract well formed; nothing else may change.
    #[verifier::rlimit(100)]
    proof fn lemma_insert_dist_frame(self, pre: ExternalStakingContract, dix: int, v: u64)
        requires
            pre.wf(),
            0 <= dix <= pre.distributions@.len(),
            !pre.has_dist(v),
            forall|i: int| 0 <= i < dix ==> (#[trigger] pre.distributions@[i]).validator < v,
            forall|i: int|
                dix <= i < pre.distributions@.len()
                    ==> (#[trigger] pre.distributions@[i]).validator > v,
            self.distributions@ == pre.distributions@.insert(
                dix,
                (Distribution { validator: v, total_stake: 0, points_per_stake: 0, points_leftover: 0 }),
            ),
            self.stakes@ == pre.stakes@,
            self.pending_txs@ == pre.pending_txs@,
            self.tx_count == pre.tx_count,
            self.config == pre.config,
        ensures
            self.wf(),
            self.has_dist(v),
            self.dist_ix(v) == dix,
            self.dist_at(v) == (Distribution {
                validator: v,
                total_stake: 0,
                points_per_stake: 0,
                points_leftover: 0,
            }),
            forall|v2: u64| v2 != v && pre.has_dist(v2) ==> #[trigger] self.has_dist(v2),
            forall|v2: u64|
                v2 != v && pre.has_dist(v2) ==> #[trigger] self.dist_at(v2) == pre.dist_at(v2),
    {
        pre.distributions@.insert_ensures(
            dix,
            (Distribution { validator: v, total_stake: 0, points_per_stake: 0, points_leftover: 0 }),
        );
        assert forall|i: int, j: int| 0 <= i < j < self.distributions@.len()
            implies (#[trigger] self.distributions@[i]).validator
                < (#[trigger] self.distributions@[j]).validator by {
            if j < dix {
                assert(pre.distributions@[i].validator < pre.distributions@[j].validator);
            } else if j == dix {
                assert(pre.distributions@[i].validator < v);
            } else if i < dix {
                assert(pre.distributions@[i].validator < v);
                assert(pre.distributions@[j - 1].validator > v);
            } else if i == dix {
                assert(pre.distributions@[j - 1].validator > v);
            } else {
                assert(pre.distributions@[i - 1].validator < pre.distributions@[j - 1].validator);
            }
        }
        lemma_dist_ix_unique(self, dix, v);
        assert forall|v2: u64| v2 != v && pre.has_dist(v2) implies #[trigger] self.has_dist(
            v2,
        ) by {
            let pj = pre.dist_ix(v2);
            lemma_dist_ix_unique(pre, pj, v2);
            if pj < dix {
                lemma_dist_ix_unique(self, pj, v2);
            } else {
                assert(self.distributions@[pj + 1] == pre.distributions@[pj]);
                lemma_dist_ix_unique(self, pj + 1, v2);
            }
        }
        assert forall|v2: u64| v2 != v && pre.has_dist(v2) implies #[trigger] self.dist_at(v2)
            == pre.dist_at(v2) by {
            let pj = pre.dist_ix(v2);
            lemma_dist_ix_unique(pre, pj, v2);
            if pj < dix {
                lemma_dist_ix_unique(self, pj, v2);
            } else {
                assert(self.distributions@[pj + 1] == pre.distributions@[pj]);
                lemma_dist_ix_unique(self, pj + 1, v2);
            }
        }
        assert forall|i: int| 0 <= i < self.stakes@.len() implies self.stake_wf(
            #[trigger] self.stakes@[i],
        ) by {
            let s = self.stakes@[i];
            assert(pre.stake_wf(s));
            let pj = pre.dist_ix(s.validator);
            lemma_dist_ix_unique(pre, pj, s.validator);
            if pj < dix {
                lemma_dist_ix_unique(self, pj, s.validator);
            } else {
                assert(self.distributions@[pj + 1] == pre.distributions@[pj]);
                lemma_dist_ix_unique(self, pj + 1, s.validator);
            }
        }
        assert forall|i: int| 0 <= i < self.pending_txs@.len() implies self.tx_anchored(
            #[trigger] self.pending_txs@[i],
        ) by {
            let t2 = self.pending_txs@[i];
            assert(pre.tx_anchored(t2));
            let pj = pre.dist_ix(t2.validator);
            lemma_dist_ix_unique(pre, pj, t2.validator);
            if pj < dix {
                assert(self.distributions@[pj].validator == t2.validator);
            } else {
                assert(self.distributions@[pj + 1].validator == t2.validator);
            }
            assert(self.has_dist(t2.validator));
        }
    }

    /// Inserting a fresh, empty stake entry at its sorted place leaves the
    /// contract well formed; nothing else may change.
    proof fn lemma_insert_stake_frame(self, pre: ExternalStakingContract, six: int, u: u64, v: u64)
        requires
            pre.wf(),
            0 <= six <= pre.stakes@.len(),
            !pre.has_stake(u, v),
            pre.has_dist(v),
            forall|i: int|
                0 <= i < six ==> pair_lt(
                    (#[trigger] pre.stakes@[i]).user,
                    pre.stakes@[i].validator,
                    u,
                    v,
                ),
            forall|i: int|
                six <= i < pre.stakes@.len() ==> pair_lt(
                    u,
                    v,
                    (#[trigger] pre.stakes@[i]).user,
                    pre.stakes@[i].validator,
                ),
            self.stakes@ == pre.stakes@.insert(six, self.stakes@[six]),
            self.stakes@[six].user == u,
            self.stakes@[six].validator == v,
            self.stakes@[six].stake == ValueRange(0, 0),
            self.stakes@[six].points_plus == 0,
            self.stakes@[six].points_minus == 0,
            self.stakes@[six].withdrawn_funds == 0,
            self.distributions@ == pre.distributions@,
            self.pending_txs@ == pre.pending_txs@,
            self.tx_count == pre.tx_count,
            self.config == pre.config,
        ensures
            self.wf(),
            self.has_stake(u, v),
            self.stake_ix(u, v) == six,
    {
        pre.stakes@.insert_ensures(six, self.stakes@[six]);
        assert forall|i: int, j: int| 0 <= i < j < self.stakes@.len() implies pair_lt(
            (#[trigger] self.stakes@[i]).user,
            self.stakes@[i].validator,
            (#[trigger] self.stakes@[j]).user,
            self.stakes@[j].validator,
        ) by {
            if j < six {
                assert(pair_lt(
                    pre.stakes@[i].user,
                    pre.stakes@[i].validator,
                    pre.stakes@[j].user,
                    pre.stakes@[j].validator,
                ));
            } else if j == six {
                assert(pair_lt(pre.stakes@[i].user, pre.stakes@[i].validator, u, v));
            } else if i < six {
                assert(pair_lt(pre.stakes@[i].user, pre.stakes@[i].validator, u, v));
                assert(pair_lt(u, v, pre.stakes@[j - 1].user, pre.stakes@[j - 1].validator));
            } else if i == six {
                assert(pair_lt(u, v, pre.stakes@[j - 1].user, pre.stakes@[j - 1].validator));
            } else {
                assert(pair_lt(
                    pre.stakes@[i - 1].user,
                    pre.stakes@[i - 1].validator,
                    pre.stakes@[j - 1].user,
                    pre.stakes@[j - 1].validator,
                ));
            }
        }
        lemma_stake_ix_unique(self, six, u, v);
        assert forall|i: int| 0 <= i < self.pending_txs@.len()
            implies (w_pair_staking(u, v))(#[trigger] self.pending_txs@[i]) == 0 by {
            let t2 = self.pending_txs@[i];
            assert(pre.tx_anchored(t2));
            if t2.user == u && t2.validator == v {
                assert(pre.has_stake(u, v));
            }
        }
        lemma_seq_sum_zero(self.pending_txs@, w_pair_staking(u, v));
        assert forall|i: int| 0 <= i < self.stakes@.len() implies self.stake_wf(
            #[trigger] self.stakes@[i],
        ) by {
            let s = self.stakes@[i];
            if i == six {
                assert(s.stake.1 == s.stake.0 + seq_sum(self.pending_txs@, w_pair_staking(u, v)));
                let pj = pre.dist_ix(v);
                lemma_dist_ix_unique(pre, pj, v);
                lemma_dist_ix_unique(self, pj, v);
                assert(self.dist_at(v).points_per_stake * 0 == 0) by (nonlinear_arith);
                assert(stake_reward_wf(s, self.dist_at(v)));
            } else {
                let pi = if i < six {
                    i
                } else {
                    i - 1
                };
                assert(s == pre.stakes@[pi]);
                assert(pre.stake_wf(s));
                let pj = pre.dist_ix(s.validator);
                lemma_dist_ix_unique(pre, pj, s.validator);
                lemma_dist_ix_unique(self, pj, s.validator);
            }
        }
        assert forall|i: int| 0 <= i < self.pending_txs@.len() implies self.tx_anchored(
            #[trigger] self.pending_txs@[i],
        ) by {
            let t2 = self.pending_txs@[i];
            assert(pre.tx_anchored(t2));
            let psix = pre.stake_ix(t2.user, t2.validator);
            lemma_stake_ix_unique(pre, psix, t2.user, t2.validator);
            if psix < six {
                assert(self.stakes@[psix].user == t2.user && self.stakes@[psix].validator
                    == t2.validator);
            } else {
                assert(self.stakes@[psix + 1].user == t2.user && self.stakes@[psix + 1].validator
                    == t2.validator);
            }
            assert(self.has_stake(t2.user, t2.validator));
            let pj = pre.dist_ix(t2.validator);
            lemma_dist_ix_unique(pre, pj, t2.validator);
            lemma_dist_ix_unique(self, pj, t2.validator);
        }
    }

    /// The shared frame of opening one journal row at its sorted place,
    /// with the row's stake entry updated in place (pair and reward
    /// mathematics kept) and the row's distribution at most rescaled in
    /// total (validator and accumulator kept).
    #[verifier::rlimit(100)]
    proof fn lemma_open_tx_frame(
        self,
        pre: ExternalStakingContract,
        six: int,
        dix: int,
        p: int,
        t: ExtTx,
    )
        requires
            pre.wf(),
            0 <= six < pre.stakes@.len(),
            0 <= dix < pre.distributions@.len(),
            t.user == pre.stakes@[six].user,
            t.validator == pre.stakes@[six].validator,
            t.validator == pre.distributions@[dix].validator,
            0 <= p <= pre.pending_txs@.len(),
            self.pending_txs@ == pre.pending_txs@.insert(p, t),
            forall|i: int| 0 <= i < p ==> (#[trigger] pre.pending_txs@[i]).id < t.id,
            forall|i: int|
                p <= i < pre.pending_txs@.len() ==> (#[trigger] pre.pending_txs@[i]).id > t.id,
            t.id <= self.tx_count,
            self.tx_count >= pre.tx_count,
            self.stakes@ == pre.stakes@.update(six, self.stakes@[six]),
            self.distributions@ == pre.distributions@.update(dix, self.distributions@[dix]),
            self.config == pre.config,
            self.stakes@[six].user == pre.stakes@[six].user,
            self.stakes@[six].validator == pre.stakes@[six].validator,
            self.distributions@[dix].validator == pre.distributions@[dix].validator,
            self.distributions@[dix].points_per_stake == pre.distributions@[dix].points_per_stake,
            self.stakes@[six].stake.wf(),
            self.stakes@[six].stake.1 == self.stakes@[six].stake.0 + seq_sum(
                self.pending_txs@,
                w_pair_staking(self.stakes@[six].user, self.stakes@[six].validator),
            ),
            reward_points(self.stakes@[six], self.distributions@[dix]) == reward_points(
                pre.stakes@[six],
                pre.distributions@[dix],
            ),
            self.stakes@[six].withdrawn_funds == pre.stakes@[six].withdrawn_funds,
        ensures
            self.wf(),
    {
        pre.pending_txs@.insert_ensures(p, t);
        assert forall|i: int, j: int| 0 <= i < j < self.stakes@.len() implies pair_lt(
            (#[trigger] self.stakes@[i]).user,
            self.stakes@[i].validator,
            (#[trigger] self.stakes@[j]).user,
            self.stakes@[j].validator,
        ) by {
            assert(pair_lt(
                pre.stakes@[i].user,
                pre.stakes@[i].validator,
                pre.stakes@[j].user,
                pre.stakes@[j].validator,
            ));
        }
        assert forall|i: int, j: int| 0 <= i < j < self.distributions@.len()
            implies (#[trigger] self.distributions@[i]).validator
                < (#[trigger] self.distributions@[j]).validator by {
            assert(pre.distributions@[i].validator < pre.distributions@[j].validator);
        }
        assert forall|i: int, j: int| 0 <= i < j < self.pending_txs@.len()
            implies (#[trigger] self.pending_txs@[i]).id
                < (#[trigger] self.pending_txs@[j]).id by {
            if i < p && j < p {
                assert(pre.pending_txs@[i].id < pre.pending_txs@[j].id);
            } else if i < p && j == p {
                assert(pre.pending_txs@[i].id < t.id);
            } else if i < p {
                assert(pre.pending_txs@[i].id < t.id);
                assert(pre.pending_txs@[j - 1].id > t.id);
            } else if i == p {
                assert(pre.pending_txs@[j - 1].id > t.id);
            } else {
                assert(pre.pending_txs@[i - 1].id < pre.pending_txs@[j - 1].id);
            }
        }
        assert forall|i: int| 0 <= i < self.pending_txs@.len()
            implies (#[trigger] self.pending_txs@[i]).id <= self.tx_count by {
            if i < p {
                assert(self.pending_txs@[i] == pre.pending_txs@[i]);
            } else if i > p {
                assert(self.pending_txs@[i] == pre.pending_txs@[i - 1]);
            }
        }
        assert forall|i: int| 0 <= i < self.stakes@.len() implies self.stake_wf(
            #[trigger] self.stakes@[i],
        ) by {
            let s = self.stakes@[i];
            assert(pre.stake_wf(pre.stakes@[i]));
            let pdix = pre.dist_ix(pre.stakes@[i].validator);
            lemma_dist_ix_unique(pre, pdix, pre.stakes@[i].validator);
            if i != six {
                lemma_seq_sum_insert(
                    pre.pending_txs@,
                    p,
                    t,
                    w_pair_staking(s.user, s.validator),
                );
                if t.user == s.user && t.validator == s.validator {
                    lemma_stake_ix_unique(pre, i, s.user, s.validator);
                    lemma_stake_ix_unique(pre, six, s.user, s.validator);
                    assert(false);
                }
            }
            if pdix == dix {
                lemma_dist_ix_unique(self, dix, s.validator);
                assert(reward_points(s, self.dist_at(s.validator)) == reward_points(
                    pre.stakes@[i],
                    pre.dist_at(s.validator),
                ));
            } else {
                assert(self.distributions@[pdix] == pre.distributions@[pdix]);
                lemma_dist_ix_unique(self, pdix, s.validator);
            }
        }
        assert forall|i: int| 0 <= i < self.pending_txs@.len() implies self.tx_anchored(
            #[trigger] self.pending_txs@[i],
        ) by {
            if i == p {
                lemma_stake_ix_unique(self, six, t.user, t.validator);
                lemma_dist_ix_unique(self, dix, t.validator);
            } else {
                let pi = if i < p {
                    i
                } else {
                    i - 1
                };
                let t2 = pre.pending_txs@[pi];
                assert(pre.tx_anchored(t2));
                let psix = pre.stake_ix(t2.user, t2.validator);
                lemma_stake_ix_unique(pre, psix, t2.user, t2.validator);
                assert(self.stakes@[psix].user == t2.user && self.stakes@[psix].validator
                    == t2.validator);
                assert(self.has_stake(t2.user, t2.validator));
                let pdix2 = pre.dist_ix(t2.validator);
                lemma_dist_ix_unique(pre, pdix2, t2.validator);
                assert(self.distributions@[pdix2].validator == t2.validator);
                assert(self.has_dist(t2.validator));
            }
        }
    }

    /// Receives a virtual stake from the vault: creates the pair's stake
    /// entry and the validator's distribution lazily, reserves the
    /// optimistic end of the stake, and journals the in-flight operation
    /// under the vault's transaction id.  Only one write per pair may be in
    /// flight, and an id already journalled is refused.
    #[verifier::rlimit(100)]
    pub fn receive_virtual_stake(
        &mut self,
        sender: u64,
        owner: u64,
        validator: u64,
        amount: u64,
        tx_id: u64,
        denom: u64,
    ) -> (r: Result<(), ContractError>)
        requires
            old(self).wf(),
            old(self).has_stake(owner, validator) ==> old(self).stake_at(
                owner,
                validator,
            ).stake.1 + amount <= u64::MAX,
        ensures
            final(self).wf(),
            sender != old(self).config.vault ==> r == Err::<(), ContractError>(
                ContractError::Unauthorized,
            ) && *final(self) == *old(self),
            sender == old(self).config.vault && denom != old(self).config.denom ==> r == Err::<
                (),
                ContractError,
            >(ContractError::InvalidDenom(old(self).config.denom)) && *final(self) == *old(self),
            sender == old(self).config.vault && denom == old(self).config.denom && (old(
                self,
            ).pair_locked(owner, validator) || old(self).has_tx(tx_id)) ==> r == Err::<
                (),
                ContractError,
            >(ContractError::Locked) && *final(self) == *old(self),
            sender == old(self).config.vault && denom == old(self).config.denom && !old(
                self,
            ).pair_locked(owner, validator) && !old(self).has_tx(tx_id) ==> ({
                &&& r == Ok::<(), ContractError>(())
                &&& final(self).has_tx(tx_id)
                &&& final(self).tx_at(tx_id) == (ExtTx {
                    id: tx_id,
                    ty: ExtTxType::InFlightRemoteStaking,
                    amount,
                    user: owner,
                    validator,
                })
                &&& final(self).has_stake(owner, validator)
                &&& final(self).stake_at(owner, validator).stake == (if old(self).has_stake(
                    owner,
                    validator,
                ) {
                    ValueRange(
                        old(self).stake_at(owner, validator).stake.0,
                        (old(self).stake_at(owner, validator).stake.1 + amount) as u64,
                    )
                } else {
                    ValueRange(0, amount)
                })
                &&& final(self).has_dist(validator)
                &&& final(self).config == old(self).config
                &&& final(self).tx_count == (if tx_id > old(self).tx_count {
                    tx_id
                } else {
                    old(self).tx_count
                })
                &&& (exists|p: int|
                    0 <= p <= old(self).pending_txs@.len() && final(self).pending_txs@ == old(
                        self,
                    ).pending_txs@.insert(
                        p,
                        (ExtTx {
                            id: tx_id,
                            ty: ExtTxType::InFlightRemoteStaking,
                            amount,
                            user: owner,
                            validator,
                        }),
                    ))
                &&& (if old(self).has_dist(validator) {
                    final(self).distributions@ == old(self).distributions@
                } else {
                    exists|q: int|
                        0 <= q <= old(self).distributions@.len() && final(self).distributions@
                            == old(self).distributions@.insert(
                            q,
                            (Distribution {
                                validator,
                                total_stake: 0,
                                points_per_stake: 0,
                                points_leftover: 0,
                            }),
                        )
                })
                &&& final(self).dist_at(validator) == (if old(self).has_dist(validator) {
                    old(self).dist_at(validator)
                } else {
                    Distribution {
                        validator,
                        total_stake: 0,
                        points_per_stake: 0,
                        points_leftover: 0,
                    }
                })
                &&& (if old(self).has_stake(owner, validator) {
                    final(self).stakes@ == old(self).stakes@.update(
                        old(self).stake_ix(owner, validator),
                        (Stake {
                            stake: ValueRange(
                                old(self).stake_at(owner, validator).stake.0,
                                (old(self).stake_at(owner, validator).stake.1 + amount) as u64,
                            ),
                            ..old(self).stake_at(owner, validator)
                        }),
                    )
                } else {
                    exists|q: int|
                        #[trigger] stakes_inserted_at(final(self).stakes@, old(self).stakes@, q)
                            && final(self).stake_ix(owner, validator) == q
                })
                &&& final(self).stake_at(owner, validator).user == owner
                &&& final(self).stake_at(owner, validator).validator == validator
                &&& (!old(self).has_stake(owner, validator) ==> final(self).stake_at(
                    owner,
                    validator,
                ).points_plus == 0 && final(self).stake_at(owner, validator).points_minus == 0
                    && final(self).stake_at(owner, validator).withdrawn_funds == 0
                    && final(self).stake_at(owner, validator).pending_unbonds@.len() == 0)
            }),
    {
        if sender != self.config.vault {
            return Err(ContractError::Unauthorized);
        }
        if denom != self.config.denom {
            return Err(ContractError::InvalidDenom(self.config.denom));
        }
        if self.is_locked(owner, validator) {
            return Err(ContractError::Locked);
        }
        let (p0, pfound) = self.locate_tx(tx_id);
        if pfound {
            return Err(ContractError::Locked);
        }
        let ghost orig = *self;
        // make sure the validator has a distribution
        let (dix, dfound) = self.locate_dist(validator);
        if !dfound {
            let ghost pre = *self;
            self.distributions.insert(
                dix,
                Distribution { validator, total_stake: 0, points_per_stake: 0, points_leftover: 0 },
            );
            proof {
                self.lemma_insert_dist_frame(pre, dix as int, validator);
            }
        }
        let ghost mid1 = *self;
        proof {
            lemma_dist_ix_unique(mid1, dix as int, validator);
        }
        // make sure the pair has a stake entry
        let (six, sfound) = self.locate_stake(owner, validator);
        if !sfound {
            let ghost pre = *self;
            self.stakes.insert(six, Stake {
                user: owner,
                validator,
                stake: ValueRange(0, 0),
                points_plus: 0,
                points_minus: 0,
                withdrawn_funds: 0,
                pending_unbonds: Vec::new(),
            });
            proof {
                self.lemma_insert_stake_frame(pre, six as int, owner, validator);
            }
        }
        let ghost mid2 = *self;
        proof {
            lemma_stake_ix_unique(mid2, six as int, owner, validator);
            assert(mid2.stake_wf(mid2.stakes@[six as int]));
            assert forall|i: int| 0 <= i < mid2.pending_txs@.len()
                implies (w_pair_staking(owner, validator))(#[trigger] mid2.pending_txs@[i])
                    == 0 by {
                if mid2.pending_txs@[i].user == owner && mid2.pending_txs@[i].validator
                    == validator {
                    assert(orig.pair_locked(owner, validator));
                }
            }
            lemma_seq_sum_zero(mid2.pending_txs@, w_pair_staking(owner, validator));
        }
        if tx_id > self.tx_count {
            self.tx_count = tx_id;
        }
        let new_tx = ExtTx {
            id: tx_id,
            ty: ExtTxType::InFlightRemoteStaking,
            amount,
            user: owner,
            validator,
        };
        let mut stake = self.stakes.remove(six);
        stake.stake.1 = stake.stake.1 + amount;
        self.stakes.insert(six, stake);
        self.pending_txs.insert(p0, new_tx);
        proof {
            let s1 = self.stakes@[six as int];
            assert(self.stakes@ =~= mid2.stakes@.update(six as int, s1));
            assert(mid2.distributions@.update(dix as int, mid2.distributions@[dix as int])
                =~= mid2.distributions@);
            assert forall|i: int| (p0 as int) <= i < mid2.pending_txs@.len()
                implies (#[trigger] mid2.pending_txs@[i]).id > tx_id by {
                if i > p0 as int {
                    assert(mid2.pending_txs@[p0 as int].id < mid2.pending_txs@[i].id);
                }
            }
            lemma_seq_sum_insert(
                mid2.pending_txs@,
                p0 as int,
                new_tx,
                w_pair_staking(owner, validator),
            );
            self.lemma_open_tx_frame(mid2, six as int, dix as int, p0 as int, new_tx);
            self.pending_txs@.insert_ensures(p0 as int, new_tx);
            lemma_ext_tx_ix_unique(*self, p0 as int, tx_id);
            lemma_stake_ix_unique(*self, six as int, owner, validator);
            // the journal grew by exactly the new row
            assert(0 <= p0 as int <= orig.pending_txs@.len() && self.pending_txs@
                == orig.pending_txs@.insert(p0 as int, new_tx));
            // the distribution table is unchanged, or grew by the fresh record
            if dfound {
                let dj = orig.dist_ix(validator);
                lemma_dist_ix_unique(orig, dj, validator);
                assert(self.distributions@[dj].validator == validator);
                lemma_dist_ix_unique(*self, dj, validator);
            } else {
                assert(0 <= dix as int <= orig.distributions@.len() && self.distributions@
                    == orig.distributions@.insert(
                    dix as int,
                    (Distribution {
                        validator,
                        total_stake: 0,
                        points_per_stake: 0,
                        points_leftover: 0,
                    }),
                ));
                assert(self.distributions@[dix as int].validator == validator);
                lemma_dist_ix_unique(*self, dix as int, validator);
            }
            // the stake table changed only at the pair's entry
            if sfound {
                lemma_stake_ix_unique(orig, six as int, owner, validator);
                assert(self.stakes@ == orig.stakes@.update(
                    orig.stake_ix(owner, validator),
                    (Stake {
                        stake: ValueRange(
                            orig.stake_at(owner, validator).stake.0,
                            (orig.stake_at(owner, validator).stake.1 + amount) as u64,
                        ),
                        ..orig.stake_at(owner, validator)
                    }),
                ));
            } else {
                mid1.stakes@.insert_ensures(six as int, mid2.stakes@[six as int]);
                assert forall|i: int| 0 <= i < six as int
                    implies (#[trigger] self.stakes@[i]) == orig.stakes@[i] by {
                    assert(mid2.stakes@[i] == mid1.stakes@[i]);
                }
                assert forall|i: int| six as int <= i < orig.stakes@.len()
                    implies (#[trigger] self.stakes@[i + 1]) == orig.stakes@[i] by {
                    assert(mid2.stakes@[i + 1] == mid1.stakes@[i]);
                }
                assert(stakes_inserted_at(self.stakes@, orig.stakes@, six as int));
            }
        }
        Ok(())
    }

    /// Schedules tokens for release: drops the stake at both ends at once
    /// (the committed tokens really leave the stake now), corrects the
    /// points alignment so accrued rewards stay intact, shrinks the
    /// validator's total, queues a pending unbond maturing after the
    /// unbonding period, and journals the in-flight operation.
    #[verifier::rlimit(100)]
    pub fn unstake(&mut self, user: u64, validator: u64, amount: u64, denom: u64, now: u64) -> (r:
        Result<u64, ContractError>)
        requires
            old(self).wf(),
            old(self).tx_count < u64::MAX,
            now + old(self).config.unbonding_period <= u64::MAX,
            old(self).has_stake(user, validator) ==> old(self).stake_at(
                user,
                validator,
            ).points_plus + old(self).dist_at(validator).points_per_stake * amount <= u128::MAX,
        ensures
            final(self).wf(),
            denom != old(self).config.denom ==> r == Err::<u64, ContractError>(
                ContractError::InvalidDenom(old(self).config.denom),
            ) && *final(self) == *old(self),
            denom == old(self).config.denom && !old(self).has_stake(user, validator) ==> r
                == Err::<u64, ContractError>(ContractError::NotEnoughStake(0)) && *final(self)
                == *old(self),
            denom == old(self).config.denom && old(self).has_stake(user, validator) && old(
                self,
            ).pair_locked(user, validator) ==> r == Err::<u64, ContractError>(
                ContractError::Locked,
            ) && *final(self) == *old(self),
            denom == old(self).config.denom && old(self).has_stake(user, validator) && !old(
                self,
            ).pair_locked(user, validator) && old(self).stake_at(user, validator).stake.0 < amount
                ==> r == Err::<u64, ContractError>(
                ContractError::NotEnoughStake(old(self).stake_at(user, validator).stake.0),
            ) && *final(self) == *old(self),
            denom == old(self).config.denom && old(self).has_stake(user, validator) && !old(
                self,
            ).pair_locked(user, validator) && old(self).stake_at(user, validator).stake.0 >= amount
                ==> ({
                let s0 = old(self).stake_at(user, validator);
                let d0 = old(self).dist_at(validator);
                let tid = (old(self).tx_count + 1) as u64;
                let sf = final(self).stake_at(user, validator);
                &&& r == Ok::<u64, ContractError>(tid)
                &&& final(self).tx_count == tid
                &&& final(self).pending_txs@ == old(self).pending_txs@.push(
                    (ExtTx {
                        id: tid,
                        ty: ExtTxType::InFlightRemoteUnstaking,
                        amount,
                        user,
                        validator,
                    }),
                )
                &&& final(self).stakes@.len() == old(self).stakes@.len()
                &&& (forall|i: int|
                    0 <= i < old(self).stakes@.len() && i != old(self).stake_ix(user, validator)
                        ==> (#[trigger] final(self).stakes@[i]) == old(self).stakes@[i])
                &&& final(self).has_stake(user, validator)
                &&& sf.stake == ValueRange((s0.stake.0 - amount) as u64, (s0.stake.1 - amount) as u64)
                &&& sf.points_plus == s0.points_plus + d0.points_per_stake * amount
                &&& sf.points_minus == s0.points_minus
                &&& sf.withdrawn_funds == s0.withdrawn_funds
                &&& sf.pending_unbonds@ == s0.pending_unbonds@.push(
                    (PendingUnbond {
                        amount,
                        release_at: (now + old(self).config.unbonding_period) as u64,
                    }),
                )
                &&& final(self).distributions@ == old(self).distributions@.update(
                    old(self).dist_ix(validator),
                    (Distribution {
                        total_stake: (if d0.total_stake >= amount {
                            (d0.total_stake - amount) as u64
                        } else {
                            0
                        }),
                        ..d0
                    }),
                )
                &&& final(self).config == old(self).config
            }),
    {
        if denom != self.config.denom {
            return Err(ContractError::InvalidDenom(self.config.denom));
        }
        let (six, sfound) = self.locate_stake(user, validator);
        if !sfound {
            return Err(ContractError::NotEnoughStake(0));
        }
        if self.is_locked(user, validator) {
            return Err(ContractError::Locked);
        }
        if self.stakes[six].stake.0 < amount {
            return Err(ContractError::NotEnoughStake(self.stakes[six].stake.0));
        }
        let ghost pre = *self;
        proof {
            assert(pre.stake_wf(pre.stakes@[six as int]));
            assert forall|i: int| 0 <= i < pre.pending_txs@.len()
                implies (w_pair_staking(user, validator))(#[trigger] pre.pending_txs@[i])
                    == 0 by {
                if pre.pending_txs@[i].user == user && pre.pending_txs@[i].validator == validator {
                    assert(pre.pair_locked(user, validator));
                }
            }
            lemma_seq_sum_zero(pre.pending_txs@, w_pair_staking(user, validator));
        }
        let (dix, dfound) = self.locate_dist(validator);
        proof {
            if !dfound {
                assert(false);
            }
        }
        let pps = self.distributions[dix].points_per_stake;
        let release_at = now + self.config.unbonding_period;
        let tx_id = self.tx_count + 1;
        self.tx_count = tx_id;
        let new_tx = ExtTx {
            id: tx_id,
            ty: ExtTxType::InFlightRemoteUnstaking,
            amount,
            user,
            validator,
        };
        let mut stake = self.stakes.remove(six);
        proof {
            assert(pps * amount >= 0) by (nonlinear_arith);
        }
        stake.stake.0 = stake.stake.0 - amount;
        stake.stake.1 = stake.stake.1 - amount;
        stake.points_plus = stake.points_plus + pps * amount as u128;
        stake.pending_unbonds.push(PendingUnbond { amount, release_at });
        self.stakes.insert(six, stake);
        let mut dist = self.distributions.remove(dix);
        dist.total_stake = if dist.total_stake >= amount {
            dist.total_stake - amount
        } else {
            0
        };
        self.distributions.insert(dix, dist);
        self.pending_txs.push(new_tx);
        proof {
            let s0 = pre.stakes@[six as int];
            let d0 = pre.distributions@[dix as int];
            let s1 = self.stakes@[six as int];
            assert(self.stakes@ =~= pre.stakes@.update(six as int, s1));
            assert(self.distributions@ =~= pre.distributions@.update(
                dix as int,
                self.distributions@[dix as int],
            ));
            assert(self.pending_txs@ =~= pre.pending_txs@.insert(
                pre.pending_txs@.len() as int,
                new_tx,
            ));
            assert(d0.points_per_stake * (s0.stake.0 - amount) + (s0.points_plus
                + d0.points_per_stake * amount) == d0.points_per_stake * s0.stake.0
                + s0.points_plus) by (nonlinear_arith);
            lemma_seq_sum_insert(
                pre.pending_txs@,
                pre.pending_txs@.len() as int,
                new_tx,
                w_pair_staking(user, validator),
            );
            self.lemma_open_tx_frame(
                pre,
                six as int,
                dix as int,
                pre.pending_txs@.len() as int,
                new_tx,
            );
            lemma_stake_ix_unique(*self, six as int, user, validator);
        }
        Ok(tx_id)
    }

    /// Commits a pending remote unstake: the state changed when the
    /// unstake was opened, so only the journal row is removed.
    #[verifier::rlimit(100)]
    pub fn commit_unstake(&mut self, tx_id: u64) -> (r: Result<(), ContractError>)
        requires
            old(self).wf(),
        ensures
            final(self).wf(),
            !(old(self).has_tx(tx_id) && old(self).tx_at(tx_id).ty
                == ExtTxType::InFlightRemoteUnstaking) ==> r == Err::<(), ContractError>(
                ContractError::UnknownTx(tx_id),
            ) && *final(self) == *old(self),
            old(self).has_tx(tx_id) && old(self).tx_at(tx_id).ty
                == ExtTxType::InFlightRemoteUnstaking ==> ({
                &&& r == Ok::<(), ContractError>(())
                &&& *final(self) == (ExternalStakingContract {
                    pending_txs: final(self).pending_txs,
                    ..*old(self)
                })
                &&& final(self).pending_txs@ == old(self).pending_txs@.remove(
                    old(self).tx_ix(tx_id),
                )
            }),
    {
        let (k, kfound) = self.locate_tx(tx_id);
        if !kfound {
            return Err(ContractError::UnknownTx(tx_id));
        }
        let t = self.pending_txs[k];
        match t.ty {
            ExtTxType::InFlightRemoteStaking => {
                return Err(ContractError::UnknownTx(tx_id));
            }
            ExtTxType::InFlightRemoteUnstaking => {
            }
        }
        let ghost pre = *self;
        proof {
            assert(pre.tx_anchored(pre.pending_txs@[k as int]));
        }
        let (six, sfound) = self.locate_stake(t.user, t.validator);
        let (dix, dfound) = self.locate_dist(t.validator);
        proof {
            if !sfound || !dfound {
                assert(false);
            }
            assert(pre.stake_wf(pre.stakes@[six as int]));
        }
        self.pending_txs.remove(k);
        proof {
            assert(pre.stakes@.update(six as int, pre.stakes@[six as int]) =~= pre.stakes@);
            assert(pre.distributions@.update(dix as int, pre.distributions@[dix as int])
                =~= pre.distributions@);
            lemma_seq_sum_remove(
                pre.pending_txs@,
                k as int,
                w_pair_staking(t.user, t.validator),
            );
            self.lemma_resolve_frame(pre, six as int, dix as int, k as int);
        }
        Ok(())
    }

    /// Rolls back a pending remote unstake: the stake, the alignment, the
    /// validator total and the unbond queue are restored and the journal
    /// row is removed.
    #[verifier::rlimit(100)]
    pub fn rollback_unstake(&mut self, tx_id: u64) -> (r: Result<(), ContractError>)
        requires
            old(self).wf(),
            old(self).has_tx(tx_id) && old(self).tx_at(tx_id).ty
                == ExtTxType::InFlightRemoteUnstaking ==> ({
                let t = old(self).tx_at(tx_id);
                &&& old(self).stake_at(t.user, t.validator).stake.1 + t.amount <= u64::MAX
                &&& old(self).stake_at(t.user, t.validator).points_minus + old(self).dist_at(
                    t.validator,
                ).points_per_stake * t.amount <= u128::MAX
                &&& old(self).dist_at(t.validator).total_stake + t.amount <= u64::MAX
            }),
        ensures
            final(self).wf(),
            !(old(self).has_tx(tx_id) && old(self).tx_at(tx_id).ty
                == ExtTxType::InFlightRemoteUnstaking) ==> r == Err::<(), ContractError>(
                ContractError::UnknownTx(tx_id),
            ) && *final(self) == *old(self),
            old(self).has_tx(tx_id) && old(self).tx_at(tx_id).ty
                == ExtTxType::InFlightRemoteUnstaking ==> ({
                let t = old(self).tx_at(tx_id);
                let s0 = old(self).stake_at(t.user, t.validator);
                let d0 = old(self).dist_at(t.validator);
                let sf = final(self).stake_at(t.user, t.validator);
                &&& r == Ok::<(), ContractError>(())
                &&& final(self).pending_txs@ == old(self).pending_txs@.remove(
                    old(self).tx_ix(tx_id),
                )
                &&& final(self).has_stake(t.user, t.validator)
                &&& sf.stake == ValueRange(
                    (s0.stake.0 + t.amount) as u64,
                    (s0.stake.1 + t.amount) as u64,
                )
                &&& sf.points_minus == s0.points_minus + d0.points_per_stake * t.amount
                &&& sf.points_plus == s0.points_plus
                &&& sf.withdrawn_funds == s0.withdrawn_funds
                &&& final(self).distributions@ == old(self).distributions@.update(
                    old(self).dist_ix(t.validator),
                    (Distribution { total_stake: (d0.total_stake + t.amount) as u64, ..d0 }),
                )
                &&& ((exists|p: int|
                    #[trigger] unbond_removed_last(
                        sf.pending_unbonds@,
                        s0.pending_unbonds@,
                        t.amount,
                        p,
                    )) || ((forall|q: int|
                    0 <= q < s0.pending_unbonds@.len() ==> (#[trigger] s0.pending_unbonds@[q]).amount
                        != t.amount) && sf.pending_unbonds@ == s0.pending_unbonds@))
            }),
    {
        let (k, kfound) = self.locate_tx(tx_id);
        if !kfound {
            return Err(ContractError::UnknownTx(tx_id));
        }
        let t = self.pending_txs[k];
        match t.ty {
            ExtTxType::InFlightRemoteStaking => {
                return Err(ContractError::UnknownTx(tx_id));
            }
            ExtTxType::InFlightRemoteUnstaking => {
            }
        }
        let ghost pre = *self;
        proof {
            assert(pre.tx_anchored(pre.pending_txs@[k as int]));
        }
        let (six, sfound) = self.locate_stake(t.user, t.validator);
        let (dix, dfound) = self.locate_dist(t.validator);
        proof {
            if !sfound || !dfound {
                assert(false);
            }
            assert(pre.stake_wf(pre.stakes@[six as int]));
        }
        let pps = self.distributions[dix].points_per_stake;
        let mut stake = self.stakes.remove(six);
        proof {
            assert(pps * t.amount >= 0) by (nonlinear_arith);
        }
        stake.stake.0 = stake.stake.0 + t.amount;
        stake.stake.1 = stake.stake.1 + t.amount;
        stake.points_minus = stake.points_minus + pps * t.amount as u128;
        // drop the most recent unbond entry the operation had queued
        let ghost q0 = stake.pending_unbonds@;
        let mut found_at: Option<usize> = None;
        let mut i: usize = stake.pending_unbonds.len();
        while i > 0 && found_at.is_none()
            invariant
                i <= q0.len(),
                stake.pending_unbonds@ == q0,
                match found_at {
                    None => forall|q: int|
                        i <= q < q0.len() ==> (#[trigger] q0[q]).amount != t.amount,
                    Some(p) => p < q0.len() && q0[p as int].amount == t.amount && (forall|q: int|
                        p < q < q0.len() ==> (#[trigger] q0[q]).amount != t.amount),
                },
            decreases i,
        {
            if stake.pending_unbonds[i - 1].amount == t.amount {
                found_at = Some(i - 1);
            }
            i = i - 1;
        }
        if let Some(p) = found_at {
            stake.pending_unbonds.remove(p);
            proof {
                assert(unbond_removed_last(stake.pending_unbonds@, q0, t.amount, p as int));
            }
        }
        self.stakes.insert(six, stake);
        let mut dist = self.distributions.remove(dix);
        dist.total_stake = dist.total_stake + t.amount;
        self.distributions.insert(dix, dist);
        self.pending_txs.remove(k);
        proof {
            let s0 = pre.stakes@[six as int];
            let d0 = pre.distributions@[dix as int];
            let s1 = self.stakes@[six as int];
            assert(self.stakes@ =~= pre.stakes@.update(six as int, s1));
            assert(self.distributions@ =~= pre.distributions@.update(
                dix as int,
                self.distributions@[dix as int],
            ));
            assert(d0.points_per_stake * (s0.stake.0 + t.amount) == d0.points_per_stake
                * s0.stake.0 + d0.points_per_stake * t.amount) by (nonlinear_arith);
            lemma_seq_sum_remove(
                pre.pending_txs@,
                k as int,
                w_pair_staking(t.user, t.validator),
            );
            self.lemma_resolve_frame(pre, six as int, dix as int, k as int);
            lemma_stake_ix_unique(*self, six as int, t.user, t.validator);
        }
        Ok(())
    }

    /// After updating one stake entry in place — pair, range and journal
    /// untouched — the contract is well formed as soon as the new entry is.
    proof fn lemma_update_stake_frame(self, pre: ExternalStakingContract, six: int)
        requires
            pre.wf(),
            0 <= six < pre.stakes@.len(),
            self.stakes@ == pre.stakes@.update(six, self.stakes@[six]),
            self.stakes@[six].user == pre.stakes@[six].user,
            self.stakes@[six].validator == pre.stakes@[six].validator,
            self.stake_wf(self.stakes@[six]),
            self.distributions@ == pre.distributions@,
            self.pending_txs@ == pre.pending_txs@,
            self.tx_count == pre.tx_count,
            self.config == pre.config,
        ensures
            self.wf(),
    {
        assert forall|i: int, j: int| 0 <= i < j < self.stakes@.len() implies pair_lt(
            (#[trigger] self.stakes@[i]).user,
            self.stakes@[i].validator,
            (#[trigger] self.stakes@[j]).user,
            self.stakes@[j].validator,
        ) by {
            assert(pair_lt(
                pre.stakes@[i].user,
                pre.stakes@[i].validator,
                pre.stakes@[j].user,
                pre.stakes@[j].validator,
            ));
        }
        assert forall|i: int| 0 <= i < self.stakes@.len() implies self.stake_wf(
            #[trigger] self.stakes@[i],
        ) by {
            if i != six {
                let s = self.stakes@[i];
                assert(pre.stake_wf(s));
                let pj = pre.dist_ix(s.validator);
                lemma_dist_ix_unique(pre, pj, s.validator);
                lemma_dist_ix_unique(self, pj, s.validator);
            }
        }
        assert forall|i: int| 0 <= i < self.pending_txs@.len() implies self.tx_anchored(
            #[trigger] self.pending_txs@[i],
        ) by {
            let t2 = self.pending_txs@[i];
            assert(pre.tx_anchored(t2));
            let psix = pre.stake_ix(t2.user, t2.validator);
            lemma_stake_ix_unique(pre, psix, t2.user, t2.validator);
            assert(self.stakes@[psix].user == t2.user && self.stakes@[psix].validator
                == t2.validator);
            assert(self.has_stake(t2.user, t2.validator));
            let pj = pre.dist_ix(t2.validator);
            lemma_dist_ix_unique(pre, pj, t2.validator);
            lemma_dist_ix_unique(self, pj, t2.validator);
        }
    }

    /// Rewards keep their consistency when the accumulator only grows.
    proof fn lemma_reward_pps_up(s: Stake, d: Distribution, d2: Distribution)
        requires
            stake_reward_wf(s, d),
            d2.points_per_stake >= d.points_per_stake,
        ensures
            stake_reward_wf(s, d2),
    {
        assert(d2.points_per_stake * s.stake.0 >= d.points_per_stake * s.stake.0)
            by (nonlinear_arith)
            requires
                d2.points_per_stake >= d.points_per_stake,
                s.stake.0 >= 0,
        {
        }
        let p1 = reward_points(s, d);
        let p2 = reward_points(s, d2);
        assert(p2 / 1_000_000_000int >= p1 / 1_000_000_000int) by (nonlinear_arith)
            requires
                p2 >= p1 >= 0,
        {
        }
        assert(SHARE_SCALE as int == 1_000_000_000int);
    }

    /// Distributes reward tokens among the validator's stakers,
    /// proportionally to stake: the scaled amount plus the carried
    /// remainder is divided by the total stake; the quotient raises the
    /// accumulator and the new remainder is carried forward.  A
    /// distribution with no stake at all is rejected.
    #[verifier::rlimit(100)]
    pub fn distribute_rewards(&mut self, validator: u64, amount: u64, denom: u64) -> (r: Result<
        (),
        ContractError,
    >)
        requires
            old(self).wf(),
            old(self).has_dist(validator) ==> ({
                let d0 = old(self).dist_at(validator);
                &&& amount * SHARE_SCALE + d0.points_leftover <= u128::MAX
                &&& d0.total_stake > 0 ==> d0.points_per_stake + (amount * SHARE_SCALE
                    + d0.points_leftover) / (d0.total_stake as int) <= u128::MAX
            }),
        ensures
            final(self).wf(),
            denom != old(self).config.rewards_denom ==> r == Err::<(), ContractError>(
                ContractError::InvalidDenom(old(self).config.rewards_denom),
            ) && *final(self) == *old(self),
            denom == old(self).config.rewards_denom && (!old(self).has_dist(validator) || old(
                self,
            ).dist_at(validator).total_stake == 0) ==> r == Err::<(), ContractError>(
                ContractError::ZeroStake,
            ) && *final(self) == *old(self),
            denom == old(self).config.rewards_denom && old(self).has_dist(validator) && old(
                self,
            ).dist_at(validator).total_stake > 0 ==> ({
                let d0 = old(self).dist_at(validator);
                let points = amount * SHARE_SCALE + d0.points_leftover;
                let delta = points / (d0.total_stake as int);
                &&& r == Ok::<(), ContractError>(())
                &&& final(self).distributions@ == old(self).distributions@.update(
                    old(self).dist_ix(validator),
                    (Distribution {
                        points_per_stake: (d0.points_per_stake + delta) as u128,
                        points_leftover: (points % (d0.total_stake as int)) as u128,
                        ..d0
                    }),
                )
                &&& final(self).stakes@ == old(self).stakes@
                &&& final(self).pending_txs@ == old(self).pending_txs@
                &&& final(self).config == old(self).config
                &&& final(self).tx_count == old(self).tx_count
            }),
    {
        if denom != self.config.rewards_denom {
            return Err(ContractError::InvalidDenom(self.config.rewards_denom));
        }
        let (dix, dfound) = self.locate_dist(validator);
        if !dfound {
            return Err(ContractError::ZeroStake);
        }
        if self.distributions[dix].total_stake == 0 {
            return Err(ContractError::ZeroStake);
        }
        let ghost pre = *self;
        let mut dist = self.distributions.remove(dix);
        let total = dist.total_stake as u128;
        proof {
            assert((amount as u128) * (SHARE_SCALE as u128) == amount * SHARE_SCALE)
                by (nonlinear_arith);
        }
        let points = amount as u128 * SHARE_SCALE as u128 + dist.points_leftover;
        let delta = points / total;
        proof {
            assert(delta * total <= points && points % total == points - delta * total
                && points % total >= 0) by (nonlinear_arith)
                requires
                    total > 0,
                    points >= 0,
                    delta == points / total,
            {
            }
        }
        dist.points_leftover = points % total;
        dist.points_per_stake = dist.points_per_stake + delta;
        self.distributions.insert(dix, dist);
        proof {
            let d0 = pre.distributions@[dix as int];
            let d1 = self.distributions@[dix as int];
            assert(self.distributions@ =~= pre.distributions@.update(dix as int, d1));
            assert forall|i: int, j: int| 0 <= i < j < self.distributions@.len()
                implies (#[trigger] self.distributions@[i]).validator
                    < (#[trigger] self.distributions@[j]).validator by {
                assert(pre.distributions@[i].validator < pre.distributions@[j].validator);
            }
            assert forall|i: int| 0 <= i < self.stakes@.len() implies self.stake_wf(
                #[trigger] self.stakes@[i],
            ) by {
                let s = self.stakes@[i];
                assert(pre.stake_wf(s));
                let pj = pre.dist_ix(s.validator);
                lemma_dist_ix_unique(pre, pj, s.validator);
                if pj == dix as int {
                    lemma_dist_ix_unique(*self, dix as int, s.validator);
                    Self::lemma_reward_pps_up(s, d0, d1);
                } else {
                    assert(self.distributions@[pj] == pre.distributions@[pj]);
                    lemma_dist_ix_unique(*self, pj, s.validator);
                }
            }
            assert forall|i: int| 0 <= i < self.pending_txs@.len() implies self.tx_anchored(
                #[trigger] self.pending_txs@[i],
            ) by {
                let t2 = self.pending_txs@[i];
                assert(pre.tx_anchored(t2));
                let psix = pre.stake_ix(t2.user, t2.validator);
                lemma_stake_ix_unique(pre, psix, t2.user, t2.validator);
                assert(self.has_stake(t2.user, t2.validator));
                let pj = pre.dist_ix(t2.validator);
                lemma_dist_ix_unique(pre, pj, t2.validator);
                assert(self.distributions@[pj].validator == t2.validator);
                assert(self.has_dist(t2.validator));
            }
            lemma_dist_ix_unique(pre, dix as int, validator);
        }
        Ok(())
    }

    /// The reward owed to a stake under its validator's distribution: the
    /// stake's share of the accumulator, corrected by the alignment, scaled
    /// back down, minus what was already withdrawn.
    pub fn calculate_reward(s: &Stake, d: &Distribution) -> (r: u64)
        requires
            stake_reward_wf(*s, *d),
            d.points_per_stake * s.stake.0 + s.points_plus <= u128::MAX,
            spec_reward_total(*s, *d) <= u64::MAX,
        ensures
            r == spec_reward_total(*s, *d) - s.withdrawn_funds,
    {
        proof {
            assert(d.points_per_stake * s.stake.0 >= 0) by (nonlinear_arith);
            assert((d.points_per_stake as u128) * (s.stake.0 as u128) == d.points_per_stake
                * s.stake.0) by (nonlinear_arith);
        }
        let points = d.points_per_stake * s.stake.0 as u128;
        let aligned = points + s.points_plus - s.points_minus;
        let total = aligned / (SHARE_SCALE as u128);
        proof {
            assert(aligned / (SHARE_SCALE as u128) == (aligned as int) / (SHARE_SCALE as int));
        }
        (total as u64) - s.withdrawn_funds
    }

    /// Pays out the reward owed to the pair and records it as withdrawn.
    /// An address without a stake entry is owed nothing.
    #[verifier::rlimit(100)]
    pub fn withdraw_rewards(&mut self, user: u64, validator: u64) -> (r: Result<
        u64,
        ContractError,
    >)
        requires
            old(self).wf(),
            old(self).has_stake(user, validator) ==> ({
                let s0 = old(self).stake_at(user, validator);
                let d0 = old(self).dist_at(validator);
                &&& d0.points_per_stake * s0.stake.0 + s0.points_plus <= u128::MAX
                &&& spec_reward_total(s0, d0) <= u64::MAX
            }),
        ensures
            final(self).wf(),
            !old(self).has_stake(user, validator) ==> r == Ok::<u64, ContractError>(0)
                && *final(self) == *old(self),
            old(self).has_stake(user, validator) && old(self).pair_locked(user, validator) ==> r
                == Err::<u64, ContractError>(ContractError::Locked) && *final(self) == *old(self),
            old(self).has_stake(user, validator) && !old(self).pair_locked(user, validator) ==> ({
                let s0 = old(self).stake_at(user, validator);
                let d0 = old(self).dist_at(validator);
                let reward = spec_reward_total(s0, d0) - s0.withdrawn_funds;
                &&& r == Ok::<u64, ContractError>(reward as u64)
                &&& final(self).has_stake(user, validator)
                &&& final(self).stake_at(user, validator).withdrawn_funds == spec_reward_total(
                    s0,
                    d0,
                )
                &&& final(self).stake_at(user, validator).stake == s0.stake
                &&& final(self).stake_at(user, validator).points_plus == s0.points_plus
                &&& final(self).stake_at(user, validator).points_minus == s0.points_minus
                &&& final(self).stake_at(user, validator).pending_unbonds@
                    == s0.pending_unbonds@
                &&& final(self).stake_at(user, validator).user == s0.user
                &&& final(self).stake_at(user, validator).validator == s0.validator
                &&& final(self).stakes@.len() == old(self).stakes@.len()
                &&& (forall|i: int|
                    0 <= i < old(self).stakes@.len() && i != old(self).stake_ix(user, validator)
                        ==> (#[trigger] final(self).stakes@[i]) == old(self).stakes@[i])
                &&& final(self).distributions@ == old(self).distributions@
                &&& final(self).pending_txs@ == old(self).pending_txs@
            }),
    {
        let (six, sfound) = self.locate_stake(user, validator);
        if !sfound {
            return Ok(0);
        }
        if self.is_locked(user, validator) {
            return Err(ContractError::Locked);
        }
        let ghost pre = *self;
        proof {
            assert(pre.stake_wf(pre.stakes@[six as int]));
        }
        let (dix, dfound) = self.locate_dist(validator);
        proof {
            if !dfound {
                assert(false);
            }
        }
        let reward = Self::calculate_reward(&self.stakes[six], &self.distributions[dix]);
        let mut stake = self.stakes.remove(six);
        stake.withdrawn_funds = stake.withdrawn_funds + reward;
        self.stakes.insert(six, stake);
        proof {
            let s1 = self.stakes@[six as int];
            assert(self.stakes@ =~= pre.stakes@.update(six as int, s1));
            assert(self.stake_wf(s1)) by {
                assert(pre.stake_wf(pre.stakes@[six as int]));
                lemma_dist_ix_unique(pre, dix as int, validator);
                lemma_dist_ix_unique(*self, dix as int, validator);
            }
            self.lemma_update_stake_frame(pre, six as int);
            lemma_stake_ix_unique(*self, six as int, user, validator);
        }
        Ok(reward)
    }

    /// The reward currently owed to the pair, without withdrawing it.
    pub fn pending_rewards(&self, user: u64, validator: u64) -> (r: u64)
        requires
            self.wf(),
            self.has_stake(user, validator) ==> ({
                let s0 = self.stake_at(user, validator);
                let d0 = self.dist_at(validator);
                &&& d0.points_per_stake * s0.stake.0 + s0.points_plus <= u128::MAX
                &&& spec_reward_total(s0, d0) <= u64::MAX
            }),
        ensures
            !self.has_stake(user, validator) ==> r == 0,
            self.has_stake(user, validator) ==> r == spec_reward_total(
                self.stake_at(user, validator),
                self.dist_at(validator),
            ) - self.stake_at(user, validator).withdrawn_funds,
    {
        let (six, sfound) = self.locate_stake(user, validator);
        if !sfound {
            return 0;
        }
        proof {
            assert(self.stake_wf(self.stakes@[six as int]));
        }
        let (dix, dfound) = self.locate_dist(validator);
        proof {
            if !dfound {
                assert(false);
            }
        }
        Self::calculate_reward(&self.stakes[six], &self.distributions[dix])
    }

    /// Sweeps every matured pending unbond of the user across all their
    /// stakes and returns the released total, which the caller forwards to
    /// the vault as a cross-stake release.  Fails when any of the user's
    /// pairs has a write in flight.
    #[verifier::rlimit(100)]
    pub fn withdraw_unbonded(&mut self, user: u64, now: u64) -> (r: Result<u64, ContractError>)
        requires
            old(self).wf(),
        ensures
            final(self).wf(),
            old(self).user_locked(user) ==> r == Err::<u64, ContractError>(ContractError::Locked)
                && *final(self) == *old(self),
            !old(self).user_locked(user) ==> ({
                let total = (if seq_sum(old(self).stakes@, w_user_released(user, now))
                    > u64::MAX as int {
                    u64::MAX as int
                } else {
                    seq_sum(old(self).stakes@, w_user_released(user, now))
                });
                &&& r == Ok::<u64, ContractError>(total as u64)
                &&& final(self).stakes@.len() == old(self).stakes@.len()
                &&& (forall|i: int|
                    0 <= i < old(self).stakes@.len() ==> ({
                        let s0 = old(self).stakes@[i];
                        let sf = #[trigger] final(self).stakes@[i];
                        &&& sf.user == s0.user
                        &&& sf.validator == s0.validator
                        &&& sf.stake == s0.stake
                        &&& sf.points_plus == s0.points_plus
                        &&& sf.points_minus == s0.points_minus
                        &&& sf.withdrawn_funds == s0.withdrawn_funds
                        &&& (s0.user == user ==> sf.pending_unbonds@ == keep_unmatured(
                            s0.pending_unbonds@,
                            now,
                        ))
                        &&& (s0.user != user ==> sf == s0)
                    }))
                &&& final(self).distributions@ == old(self).distributions@
                &&& final(self).pending_txs@ == old(self).pending_txs@
                &&& final(self).config == old(self).config
                &&& final(self).tx_count == old(self).tx_count
            }),
    {
        // every pair of the user must be free of in-flight writes
        let mut i: usize = 0;
        while i < self.pending_txs.len()
            invariant
                i <= self.pending_txs@.len(),
                forall|j: int| 0 <= j < i ==> (#[trigger] self.pending_txs@[j]).user != user,
                *self == *old(self),
                self.wf(),
            decreases self.pending_txs@.len() - i,
        {
            if self.pending_txs[i].user == user {
                proof {
                    assert(old(self).user_locked(user));
                }
                return Err(ContractError::Locked);
            }
            i = i + 1;
        }
        proof {
            if self.user_locked(user) {
                let k = choose|k: int|
                    0 <= k < self.pending_txs@.len() && (#[trigger] self.pending_txs@[k]).user
                        == user;
                assert(self.pending_txs@[k].user != user);
            }
        }
        let ghost pre = *self;
        let mut total: u128 = 0;
        let mut i: usize = 0;
        proof {
            assert(pre.stakes@.take(0) =~= Seq::<Stake>::empty());
            assert forall|k: int| 0 <= k < pre.stakes@.len() implies (w_user_released(user, now))(
                #[trigger] pre.stakes@[k],
            ) >= 0 by {
                let q = pre.stakes@[k].pending_unbonds@;
                assert forall|m: int| 0 <= m < q.len() implies 0 <= (w_matured(now))(
                    #[trigger] q[m],
                ) by {
                }
                lemma_seq_sum_nonneg(q, w_matured(now));
            }
        }
        while i < self.stakes.len()
            invariant
                i <= self.stakes@.len(),
                self.stakes@.len() == pre.stakes@.len(),
                total == (if seq_sum(pre.stakes@.take(i as int), w_user_released(user, now))
                    > u128::MAX as int {
                    u128::MAX as int
                } else {
                    seq_sum(pre.stakes@.take(i as int), w_user_released(user, now))
                }),
                forall|k: int|
                    0 <= k < pre.stakes@.len() ==> (w_user_released(user, now))(
                        #[trigger] pre.stakes@[k],
                    ) >= 0,
                forall|k: int|
                    0 <= k < pre.stakes@.len() ==> ({
                        let s0 = pre.stakes@[k];
                        let sf = #[trigger] self.stakes@[k];
                        &&& sf.user == s0.user
                        &&& sf.validator == s0.validator
                        &&& sf.stake == s0.stake
                        &&& sf.points_plus == s0.points_plus
                        &&& sf.points_minus == s0.points_minus
                        &&& sf.withdrawn_funds == s0.withdrawn_funds
                        &&& (k >= i ==> sf == s0)
                        &&& (k < i && s0.user == user ==> sf.pending_unbonds@ == keep_unmatured(
                            s0.pending_unbonds@,
                            now,
                        ))
                        &&& (k < i && s0.user != user ==> sf == s0)
                    }),
                self.distributions@ == pre.distributions@,
                self.pending_txs@ == pre.pending_txs@,
                self.config == pre.config,
                self.tx_count == pre.tx_count,
                pre.wf(),
            decreases self.stakes@.len() - i,
        {
            proof {
                assert(pre.stakes@.take(i + 1).drop_last() =~= pre.stakes@.take(i as int));
                assert(pre.stakes@.take(i + 1).last() == pre.stakes@[i as int]);
            }
            if self.stakes[i].user == user {
                let ghost prev = self.stakes@;
                let mut stake = self.stakes.remove(i);
                let ghost q0 = stake.pending_unbonds@;
                let mut kept: Vec<PendingUnbond> = Vec::new();
                let mut released: u128 = 0;
                let mut j: usize = 0;
                proof {
                    assert(q0.take(0) =~= Seq::<PendingUnbond>::empty());
                }
                while j < stake.pending_unbonds.len()
                    invariant
                        j <= q0.len(),
                        stake.pending_unbonds@ == q0,
                        kept@ == keep_unmatured(q0.take(j as int), now),
                        released == seq_sum(q0.take(j as int), w_matured(now)),
                        released <= j * 0xffff_ffff_ffff_ffffint,
                    decreases q0.len() - j,
                {
                    proof {
                        assert(q0.take(j + 1).drop_last() =~= q0.take(j as int));
                        assert(q0.take(j + 1).last() == q0[j as int]);
                        assert((j + 1) * 0xffff_ffff_ffff_ffffint == j * 0xffff_ffff_ffff_ffffint
                            + 0xffff_ffff_ffff_ffffint) by (nonlinear_arith);
                        assert(q0.len() * 0xffff_ffff_ffff_ffffint
                            < 0x1_0000_0000_0000_0000_0000_0000_0000_0000int) by (nonlinear_arith)
                            requires
                                q0.len() <= 0xffff_ffff_ffff_ffffint,
                        {
                        }
                        assert(j * 0xffff_ffff_ffff_ffffint <= q0.len()
                            * 0xffff_ffff_ffff_ffffint) by (nonlinear_arith)
                            requires
                                0 <= j <= q0.len(),
                        {
                        }
                    }
                    let u = stake.pending_unbonds[j];
                    if u.release_at <= now {
                        released = released + u.amount as u128;
                        proof {
                            assert(keep_unmatured(q0.take(j + 1), now) =~= kept@);
                        }
                    } else {
                        kept.push(u);
                        proof {
                            assert(keep_unmatured(q0.take(j + 1), now) =~= kept@);
                        }
                    }
                    j = j + 1;
                }
                proof {
                    assert(q0.take(q0.len() as int) =~= q0);
                }
                stake.pending_unbonds = kept;
                self.stakes.insert(i, stake);
                proof {
                    assert(self.stakes@ =~= prev.update(i as int, self.stakes@[i as int]));
                }
                if total > u128::MAX - released {
                    total = u128::MAX;
                } else {
                    total = total + released;
                }
            }
            i = i + 1;
        }
        proof {
            assert(pre.stakes@.take(pre.stakes@.len() as int) =~= pre.stakes@);
        }
        let out = if total > u64::MAX as u128 {
            u64::MAX
        } else {
            total as u64
        };
        proof {
            assert forall|k: int| 0 <= k < self.stakes@.len() implies self.stake_wf(
                #[trigger] self.stakes@[k],
            ) by {
                let s0 = pre.stakes@[k];
                assert(pre.stake_wf(s0));
                let pj = pre.dist_ix(s0.validator);
                lemma_dist_ix_unique(pre, pj, s0.validator);
                lemma_dist_ix_unique(*self, pj, s0.validator);
                assert(reward_points(self.stakes@[k], self.dist_at(s0.validator))
                    == reward_points(s0, pre.dist_at(s0.validator)));
            }
            assert forall|k: int| 0 <= k < self.pending_txs@.len() implies self.tx_anchored(
                #[trigger] self.pending_txs@[k],
            ) by {
                let t2 = self.pending_txs@[k];
                assert(pre.tx_anchored(t2));
                let psix = pre.stake_ix(t2.user, t2.validator);
                lemma_stake_ix_unique(pre, psix, t2.user, t2.validator);
                assert(self.stakes@[psix].user == t2.user && self.stakes@[psix].validator
                    == t2.validator);
                assert(self.has_stake(t2.user, t2.validator));
            }
            assert forall|a: int, b: int| 0 <= a < b < self.stakes@.len() implies pair_lt(
                (#[trigger] self.stakes@[a]).user,
                self.stakes@[a].validator,
                (#[trigger] self.stakes@[b]).user,
                self.stakes@[b].validator,
            ) by {
                assert(pair_lt(
                    pre.stakes@[a].user,
                    pre.stakes@[a].validator,
                    pre.stakes@[b].user,
                    pre.stakes@[b].validator,
                ));
            }
        }
        Ok(out)
    }

    /// Applies the configured slash ratio to every stake on the validator,
    /// truncating towards zero per stake, corrects each alignment so earned
    /// rewards survive, shrinks the validator's total, and returns what
    /// each user lost — the list the vault absorbs lien by lien.
    #[verifier::rlimit(100)]
    pub fn handle_slashing(&mut self, validator: u64) -> (r: Vec<SlashInfo>)
        requires
            old(self).wf(),
            forall|i: int|
                0 <= i < old(self).stakes@.len() && (#[trigger] old(self).stakes@[i]).validator
                    == validator && old(self).has_dist(validator)
                    ==> old(self).stakes@[i].points_plus + old(self).dist_at(
                    validator,
                ).points_per_stake * old(self).stakes@[i].stake.0 <= u128::MAX,
        ensures
            final(self).wf(),
            r@ == spec_slash_list(old(self).stakes@, validator, old(self).config.slash_ratio),
            final(self).stakes@.len() == old(self).stakes@.len(),
            forall|i: int|
                0 <= i < old(self).stakes@.len() ==> ({
                    let s0 = old(self).stakes@[i];
                    let sf = #[trigger] final(self).stakes@[i];
                    let sl = spec_mul_floor(s0.stake.0, old(self).config.slash_ratio);
                    &&& (s0.validator != validator ==> sf == s0)
                    &&& (s0.validator == validator && old(self).has_dist(validator) ==> ({
                        &&& sf.user == s0.user
                        &&& sf.validator == s0.validator
                        &&& sf.stake == ValueRange(
                            (s0.stake.0 - sl) as u64,
                            (s0.stake.1 - sl) as u64,
                        )
                        &&& sf.points_plus == s0.points_plus + old(self).dist_at(
                            validator,
                        ).points_per_stake * sl
                        &&& sf.points_minus == s0.points_minus
                        &&& sf.withdrawn_funds == s0.withdrawn_funds
                    }))
                }),
            final(self).pending_txs@ == old(self).pending_txs@,
            final(self).config == old(self).config,
            final(self).tx_count == old(self).tx_count,
            !old(self).has_dist(validator) ==> final(self).distributions@ == old(
                self,
            ).distributions@,
            old(self).has_dist(validator) ==> final(self).distributions@ == old(
                self,
            ).distributions@.update(
                old(self).dist_ix(validator),
                (Distribution {
                    total_stake: ({
                        let slashed = seq_sum(
                            old(self).stakes@,
                            w_validator_slash(validator, old(self).config.slash_ratio),
                        );
                        if slashed > old(self).dist_at(validator).total_stake {
                            0
                        } else {
                            (old(self).dist_at(validator).total_stake - slashed) as u64
                        }
                    }),
                    ..old(self).dist_at(validator)
                }),
            ),
    {
        let ghost pre = *self;
        let mut out: Vec<SlashInfo> = Vec::new();
        let ratio = self.config.slash_ratio;
        let (dix, dfound) = self.locate_dist(validator);
        if !dfound {
            // no distribution means no stake ever existed on the validator
            let mut i: usize = 0;
            proof {
                assert(spec_slash_list(pre.stakes@.take(0), validator, ratio) =~= out@);
            }
            while i < self.stakes.len()
                invariant
                    i <= self.stakes@.len(),
                    *self == pre,
                    pre.wf(),
                    !pre.has_dist(validator),
                    ratio == pre.config.slash_ratio,
                    out@ == spec_slash_list(pre.stakes@.take(i as int), validator, ratio),
                    forall|k: int|
                        0 <= k < i ==> (#[trigger] pre.stakes@[k]).validator != validator,
                decreases self.stakes@.len() - i,
            {
                proof {
                    assert(pre.stakes@.take(i + 1).drop_last() =~= pre.stakes@.take(i as int));
                    assert(pre.stakes@.take(i + 1).last() == pre.stakes@[i as int]);
                    if pre.stakes@[i as int].validator == validator {
                        assert(pre.stake_wf(pre.stakes@[i as int]));
                        assert(false);
                    }
                    assert(spec_slash_list(pre.stakes@.take(i + 1), validator, ratio) =~= out@);
                }
                i = i + 1;
            }
            proof {
                assert(pre.stakes@.take(pre.stakes@.len() as int) =~= pre.stakes@);
            }
            return out;
        }
        let pps = self.distributions[dix].points_per_stake;
        let mut slashed_total: u128 = 0;
        let mut i: usize = 0;
        proof {
            assert(spec_slash_list(pre.stakes@.take(0), validator, ratio) =~= out@);
            lemma_dist_ix_unique(pre, dix as int, validator);
        }
        while i < self.stakes.len()
            invariant
                i <= self.stakes@.len(),
                self.stakes@.len() == pre.stakes@.len(),
                pre.wf(),
                pre.has_dist(validator),
                0 <= dix < pre.distributions@.len(),
                pre.dist_ix(validator) == dix,
                pre.distributions@[dix as int].validator == validator,
                pps == pre.distributions@[dix as int].points_per_stake,
                ratio == pre.config.slash_ratio,
                ratio.wf(),
                forall|k: int|
                    0 <= k < pre.stakes@.len() && (#[trigger] pre.stakes@[k]).validator
                        == validator ==> pre.stakes@[k].points_plus + pps * pre.stakes@[k].stake.0
                        <= u128::MAX,
                out@ == spec_slash_list(pre.stakes@.take(i as int), validator, ratio),
                slashed_total == seq_sum(
                    pre.stakes@.take(i as int),
                    w_validator_slash(validator, ratio),
                ),
                slashed_total <= i * 0xffff_ffff_ffff_ffffint,
                forall|k: int|
                    0 <= k < pre.stakes@.len() ==> ({
                        let s0 = pre.stakes@[k];
                        let sf = #[trigger] self.stakes@[k];
                        let sl = spec_mul_floor(s0.stake.0, ratio);
                        &&& (k >= i ==> sf == s0)
                        &&& (k < i && s0.validator != validator ==> sf == s0)
                        &&& (k < i && s0.validator == validator ==> ({
                            &&& sf.user == s0.user
                            &&& sf.validator == s0.validator
                            &&& sf.stake == ValueRange(
                                (s0.stake.0 - sl) as u64,
                                (s0.stake.1 - sl) as u64,
                            )
                            &&& sf.points_plus == s0.points_plus + pps * sl
                            &&& sf.points_minus == s0.points_minus
                            &&& sf.withdrawn_funds == s0.withdrawn_funds
                            &&& sf.pending_unbonds@ == s0.pending_unbonds@
                        }))
                    }),
                self.distributions@ == pre.distributions@,
                self.pending_txs@ == pre.pending_txs@,
                self.config == pre.config,
                self.tx_count == pre.tx_count,
            decreases self.stakes@.len() - i,
        {
            proof {
                assert(pre.stakes@.take(i + 1).drop_last() =~= pre.stakes@.take(i as int));
                assert(pre.stakes@.take(i + 1).last() == pre.stakes@[i as int]);
                assert((i + 1) * 0xffff_ffff_ffff_ffffint == i * 0xffff_ffff_ffff_ffffint
                    + 0xffff_ffff_ffff_ffffint) by (nonlinear_arith);
                assert(pre.stakes@.len() * 0xffff_ffff_ffff_ffffint
                    < 0x1_0000_0000_0000_0000_0000_0000_0000_0000int) by (nonlinear_arith)
                    requires
                        pre.stakes@.len() <= 0xffff_ffff_ffff_ffffint,
                {
                }
                assert(i * 0xffff_ffff_ffff_ffffint <= pre.stakes@.len()
                    * 0xffff_ffff_ffff_ffffint) by (nonlinear_arith)
                    requires
                        0 <= i <= pre.stakes@.len(),
                {
                }
            }
            if self.stakes[i].validator == validator {
                let ghost prev = self.stakes@;
                let mut stake = self.stakes.remove(i);
                proof {
                    assert(pre.stake_wf(pre.stakes@[i as int]));
                }
                let sl = mul_floor(stake.stake.0, ratio);
                proof {
                    assert(pps * sl <= pps * stake.stake.0) by (nonlinear_arith)
                        requires
                            0 <= sl <= stake.stake.0,
                            pps >= 0,
                    {
                    }
                    assert(pps * sl >= 0) by (nonlinear_arith);
                }
                stake.stake.0 = stake.stake.0 - sl;
                stake.stake.1 = stake.stake.1 - sl;
                stake.points_plus = stake.points_plus + pps * sl as u128;
                out.push(SlashInfo { user: stake.user, slash: sl });
                self.stakes.insert(i, stake);
                slashed_total = slashed_total + sl as u128;
                proof {
                    assert(self.stakes@ =~= prev.update(i as int, self.stakes@[i as int]));
                    assert(spec_slash_list(pre.stakes@.take(i + 1), validator, ratio) =~= out@);
                }
            } else {
                proof {
                    assert(spec_slash_list(pre.stakes@.take(i + 1), validator, ratio) =~= out@);
                }
            }
            i = i + 1;
        }
        proof {
            assert(pre.stakes@.take(pre.stakes@.len() as int) =~= pre.stakes@);
        }
        let mut dist = self.distributions.remove(dix);
        dist.total_stake = if slashed_total > dist.total_stake as u128 {
            0
        } else {
            dist.total_stake - slashed_total as u64
        };
        self.distributions.insert(dix, dist);
        proof {
            let d0 = pre.distributions@[dix as int];
            let d1 = self.distributions@[dix as int];
            assert(self.distributions@ =~= pre.distributions@.update(dix as int, d1));
            assert forall|a: int, b: int| 0 <= a < b < self.stakes@.len() implies pair_lt(
                (#[trigger] self.stakes@[a]).user,
                self.stakes@[a].validator,
                (#[trigger] self.stakes@[b]).user,
                self.stakes@[b].validator,
            ) by {
                assert(pair_lt(
                    pre.stakes@[a].user,
                    pre.stakes@[a].validator,
                    pre.stakes@[b].user,
                    pre.stakes@[b].validator,
                ));
            }
            assert forall|a: int, b: int| 0 <= a < b < self.distributions@.len()
                implies (#[trigger] self.distributions@[a]).validator
                    < (#[trigger] self.distributions@[b]).validator by {
                assert(pre.distributions@[a].validator < pre.distributions@[b].validator);
            }
            assert forall|k: int| 0 <= k < self.stakes@.len() implies self.stake_wf(
                #[trigger] self.stakes@[k],
            ) by {
                let s0 = pre.stakes@[k];
                let sf = self.stakes@[k];
                assert(pre.stake_wf(s0));
                let pj = pre.dist_ix(s0.validator);
                lemma_dist_ix_unique(pre, pj, s0.validator);
                if pj == dix as int {
                    lemma_dist_ix_unique(*self, dix as int, s0.validator);
                } else {
                    assert(self.distributions@[pj] == pre.distributions@[pj]);
                    lemma_dist_ix_unique(*self, pj, s0.validator);
                }
                if s0.validator == validator {
                    let sl = spec_mul_floor(s0.stake.0, ratio);
                    lemma_mul_floor_bounds(s0.stake.0, ratio);
                    assert(pps * (s0.stake.0 - sl) + (s0.points_plus + pps * sl) == pps
                        * s0.stake.0 + s0.points_plus) by (nonlinear_arith);
                }
            }
            assert forall|k: int| 0 <= k < self.pending_txs@.len() implies self.tx_anchored(
                #[trigger] self.pending_txs@[k],
            ) by {
                let t2 = self.pending_txs@[k];
                assert(pre.tx_anchored(t2));
                let psix = pre.stake_ix(t2.user, t2.validator);
                lemma_stake_ix_unique(pre, psix, t2.user, t2.validator);
                assert(self.stakes@[psix].user == t2.user && self.stakes@[psix].validator
                    == t2.validator);
                assert(self.has_stake(t2.user, t2.validator));
                let pj = pre.dist_ix(t2.validator);
                lemma_dist_ix_unique(pre, pj, t2.validator);
                assert(self.distributions@[pj].validator == t2.validator);
                assert(self.has_dist(t2.validator));
            }
        }
        out
    }

    /// The stake entry of a pair, with an empty default for pairs that
    /// never staked.
    pub fn stake(&self, user: u64, validator: u64) -> (s: Stake)
        requires
            self.stakes_sorted(),
        ensures
            self.has_stake(user, validator) ==> ({
                let e = self.stake_at(user, validator);
                &&& s.user == e.user
                &&& s.validator == e.validator
                &&& s.stake == e.stake
                &&& s.points_plus == e.points_plus
                &&& s.points_minus == e.points_minus
                &&& s.withdrawn_funds == e.withdrawn_funds
                &&& s.pending_unbonds@ == e.pending_unbonds@
            }),
            !self.has_stake(user, validator) ==> ({
                &&& s.user == user
                &&& s.validator == validator
                &&& s.stake == ValueRange(0, 0)
                &&& s.points_plus == 0
                &&& s.points_minus == 0
                &&& s.withdrawn_funds == 0
                &&& s.pending_unbonds@.len() == 0
            }),
    {
        let (six, sfound) = self.locate_stake(user, validator);
        if !sfound {
            return Stake {
                user,
                validator,
                stake: ValueRange(0, 0),
                points_plus: 0,
                points_minus: 0,
                withdrawn_funds: 0,
                pending_unbonds: Vec::new(),
            };
        }
        let entry = &self.stakes[six];
        let mut unbonds: Vec<PendingUnbond> = Vec::new();
        let mut j: usize = 0;
        while j < entry.pending_unbonds.len()
            invariant
                j <= entry.pending_unbonds@.len(),
                unbonds@ == entry.pending_unbonds@.take(j as int),
            decreases entry.pending_unbonds@.len() - j,
        {
            unbonds.push(entry.pending_unbonds[j]);
            proof {
                assert(unbonds@ =~= entry.pending_unbonds@.take(j + 1));
            }
            j = j + 1;
        }
        proof {
            assert(entry.pending_unbonds@.take(entry.pending_unbonds@.len() as int)
                =~= entry.pending_unbonds@);
        }
        Stake {
            user: entry.user,
            validator: entry.validator,
            stake: entry.stake,
            points_plus: entry.points_plus,
            points_minus: entry.points_minus,
            withdrawn_funds: entry.withdrawn_funds,
            pending_unbonds: unbonds,
        }
    }

    /// The pending transaction under an id.
    pub fn pending_tx(&self, tx_id: u64) -> (r: Result<ExtTx, ContractError>)
        requires
            self.txs_sorted(),
        ensures
            self.has_tx(tx_id) ==> r == Ok::<ExtTx, ContractError>(self.tx_at(tx_id)),
            !self.has_tx(tx_id) ==> r == Err::<ExtTx, ContractError>(
                ContractError::UnknownTx(tx_id),
            ),
    {
        let (k, kfound) = self.locate_tx(tx_id);
        if !kfound {
            return Err(ContractError::UnknownTx(tx_id));
        }
        Ok(self.pending_txs[k])
    }

    /// Paginated journal, newest first; `start_after` is the last id of
    /// the previous page, exclusive.
    pub fn all_pending_txs_desc(&self, start_after: Option<u64>, limit: Option<u32>) -> (resp: Vec<
        ExtTx,
    >)
        ensures
            resp@ == spec_ext_txs_page_desc(
                self.pending_txs@,
                start_after,
                crate::pages::spec_page_limit(limit),
            ),
    {
        let lim = crate::pages::clamp_page_limit(limit);
        let mut out: Vec<ExtTx> = Vec::new();
        let mut i: usize = self.pending_txs.len();
        proof {
            assert(self.pending_txs@.take(i as int) =~= self.pending_txs@);
            assert(out@ + spec_ext_txs_page_desc(self.pending_txs@, start_after, lim as int)
                =~= spec_ext_txs_page_desc(self.pending_txs@, start_after, lim as int));
        }
        while i > 0 && out.len() < lim
            invariant
                i <= self.pending_txs@.len(),
                out@.len() <= lim,
                spec_ext_txs_page_desc(self.pending_txs@, start_after, lim as int) == out@
                    + spec_ext_txs_page_desc(
                    self.pending_txs@.take(i as int),
                    start_after,
                    lim - out@.len(),
                ),
            decreases i,
        {
            proof {
                assert(self.pending_txs@.take(i as int).last() == self.pending_txs@[i - 1]);
                assert(self.pending_txs@.take(i as int).drop_last() =~= self.pending_txs@.take(
                    i - 1,
                ));
            }
            let h = self.pending_txs[i - 1];
            let skipped = match start_after {
                Some(a) => h.id >= a,
                None => false,
            };
            if !skipped {
                let ghost out0 = out@;
                out.push(h);
                proof {
                    assert(out0 + (seq![h] + spec_ext_txs_page_desc(
                        self.pending_txs@.take(i - 1),
                        start_after,
                        lim - out0.len() - 1,
                    )) =~= out@ + spec_ext_txs_page_desc(
                        self.pending_txs@.take(i - 1),
                        start_after,
                        lim - out@.len(),
                    ));
                }
            }
            i = i - 1;
        }
        proof {
            if out@.len() == lim {
                assert(spec_ext_txs_page_desc(self.pending_txs@.take(i as int), start_after, 0)
                    =~= Seq::<ExtTx>::empty());
            } else {
                assert(self.pending_txs@.take(0) =~= Seq::<ExtTx>::empty());
            }
            assert(out@ + Seq::<ExtTx>::empty() =~= out@);
        }
        out
    }

    /// Paginated list of one user's stakes, ascending by validator;
    /// `start_after` is exclusive.
    pub fn stakes(&self, user: u64, start_after: Option<u64>, limit: Option<u32>) -> (resp: Vec<
        StakeInfo,
    >)
        ensures
            resp@ == spec_stakes_page(
                self.stakes@,
                user,
                start_after,
                crate::pages::spec_page_limit(limit),
            ),
    {
        let lim = crate::pages::clamp_page_limit(limit);
        let mut out: Vec<StakeInfo> = Vec::new();
        let mut i: usize = 0;
        proof {
            assert(self.stakes@.skip(0) =~= self.stakes@);
            assert(out@ + spec_stakes_page(self.stakes@, user, start_after, lim as int)
                =~= spec_stakes_page(self.stakes@, user, start_after, lim as int));
        }
        while i < self.stakes.len() && out.len() < lim
            invariant
                i <= self.stakes@.len(),
                out@.len() <= lim,
                spec_stakes_page(self.stakes@, user, start_after, lim as int) == out@
                    + spec_stakes_page(
                    self.stakes@.skip(i as int),
                    user,
                    start_after,
                    lim - out@.len(),
                ),
            decreases self.stakes@.len() - i,
        {
            proof {
                assert(self.stakes@.skip(i as int)[0] == self.stakes@[i as int]);
                assert(self.stakes@.skip(i as int).skip(1) =~= self.stakes@.skip(i + 1));
            }
            let h = &self.stakes[i];
            let skipped = h.user != user || (match start_after {
                Some(a) => h.validator <= a,
                None => false,
            });
            if !skipped {
                let ghost out0 = out@;
                out.push(StakeInfo { owner: h.user, validator: h.validator, stake: h.stake });
                proof {
                    let item = StakeInfo {
                        owner: self.stakes@[i as int].user,
                        validator: self.stakes@[i as int].validator,
                        stake: self.stakes@[i as int].stake,
                    };
                    assert(out0 + (seq![item] + spec_stakes_page(
                        self.stakes@.skip(i + 1),
                        user,
                        start_after,
                        lim - out0.len() - 1,
                    )) =~= out@ + spec_stakes_page(
                        self.stakes@.skip(i + 1),
                        user,
                        start_after,
                        lim - out@.len(),
                    ));
                }
            }
            i = i + 1;
        }
        proof {
            if out@.len() == lim {
                assert(spec_stakes_page(self.stakes@.skip(i as int), user, start_after, 0)
                    =~= Seq::<StakeInfo>::empty());
            } else {
                assert(self.stakes@.skip(i as int) =~= Seq::<Stake>::empty());
            }
            assert(out@ + Seq::<StakeInfo>::empty() =~= out@);
        }
        out
    }

    /// Paginated list of the distinct users holding stake entries,
    /// ascending; `start_after` is exclusive.
    pub fn users(&self, start_after: Option<u64>, limit: Option<u32>) -> (resp: Vec<u64>)
        ensures
            resp@ == spec_users_page(
                self.stakes@,
                start_after,
                crate::pages::spec_page_limit(limit),
            ),
    {
        let lim = crate::pages::clamp_page_limit(limit);
        let mut out: Vec<u64> = Vec::new();
        let mut cur_after = start_after;
        let mut i: usize = 0;
        proof {
            assert(self.stakes@.skip(0) =~= self.stakes@);
            assert(out@ + spec_users_page(self.stakes@, start_after, lim as int)
                =~= spec_users_page(self.stakes@, start_after, lim as int));
        }
        while i < self.stakes.len() && out.len() < lim
            invariant
                i <= self.stakes@.len(),
                out@.len() <= lim,
                spec_users_page(self.stakes@, start_after, lim as int) == out@ + spec_users_page(
                    self.stakes@.skip(i as int),
                    cur_after,
                    lim - out@.len(),
                ),
            decreases self.stakes@.len() - i,
        {
            proof {
                assert(self.stakes@.skip(i as int)[0] == self.stakes@[i as int]);
                assert(self.stakes@.skip(i as int).skip(1) =~= self.stakes@.skip(i + 1));
            }
            let h = &self.stakes[i];
            let skipped = match cur_after {
                Some(a) => h.user <= a,
                None => false,
            };
            if !skipped {
                let ghost out0 = out@;
                let user = h.user;
                out.push(user);
                cur_after = Some(user);
                proof {
                    assert(out0 + (seq![user] + spec_users_page(
                        self.stakes@.skip(i + 1),
                        Some(user),
                        lim - out0.len() - 1,
                    )) =~= out@ + spec_users_page(
                        self.stakes@.skip(i + 1),
                        Some(user),
                        lim - out@.len(),
                    ));
                }
            }
            i = i + 1;
        }
        proof {
            if out@.len() == lim {
                assert(spec_users_page(self.stakes@.skip(i as int), cur_after, 0) =~= Seq::<
                    u64,
                >::empty());
            } else {
                assert(self.stakes@.skip(i as int) =~= Seq::<Stake>::empty());
            }
            assert(out@ + Seq::<u64>::empty() =~= out@);
        }
        out
    }

    /// Whether the pair has an in-flight operation.
    fn is_locked(&self, user: u64, validator: u64) -> (b: bool)
        ensures
            b == self.pair_locked(user, validator),
    {
        let mut i: usize = 0;
        while i < self.pending_txs.len()
            invariant
                i <= self.pending_txs@.len(),
                forall|j: int|
                    0 <= j < i ==> !((#[trigger] self.pending_txs@[j]).user == user
                        && self.pending_txs@[j].validator == validator),
            decreases self.pending_txs@.len() - i,
        {
            if self.pending_txs[i].user == user && self.pending_txs[i].validator == validator {
                proof {
                    assert(self.pair_locked(user, validator));
                }
                return true;
            }
            i = i + 1;
        }
        proof {
            if self.pair_locked(user, validator) {
                let k = choose|k: int|
                    0 <= k < self.pending_txs@.len() && (#[trigger] self.pending_txs@[k]).user
                        == user && self.pending_txs@[k].validator == validator;
                assert(!(self.pending_txs@[k].user == user && self.pending_txs@[k].validator
                    == validator));
            }
        }
        false
    }
}

} // verus!
