//! The vault: root of collateral truth.
//!
//! Users bond collateral and pledge it as liens to staking destinations.
//! Local stakes settle synchronously; cross-chain stakes go through a
//! prepare/commit/rollback journal of pending transactions.  Per user the
//! vault keeps the bonded collateral, the lien table (sorted by lienholder),
//! and the `total_slashable` optimistic range; the maximum lien is computed
//! from the table.  The collateral rule — neither the largest lien nor the
//! total slashable exposure may outgrow the collateral, even if every
//! in-flight operation commits — is enforced on the optimistic ends at
//! prepare time.

use vstd::prelude::*;
use crate::range::{ValueRange, spec_prepare_add, spec_rollback_add};
use crate::ratio::{
    SlashRatio, spec_mul_floor, spec_mul_floor_int, spec_ceil_div, mul_floor,
    lemma_mul_floor_bounds, lemma_mul_floor_int_monotonic, RATIO_ONE,
};
use crate::error::ContractError;
use crate::agg::{
    seq_sum, lemma_seq_sum_push, lemma_seq_sum_remove, lemma_seq_sum_zero, lemma_seq_sum_bound,
    lemma_seq_sum_nonneg, lemma_seq_sum_ge_elem, lemma_seq_sum_le,
};

verus! {

/// Immutable vault configuration: the collateral denomination.
#[derive(Debug, Clone, Copy, PartialEq, Eq, Structural)]
pub struct Config {
    pub denom: u64,
}

/// The local staking collaborator, captured at init.
#[derive(Debug, Clone, Copy, PartialEq, Eq, Structural)]
pub struct LocalStaking {
    /// Address of the local staking contract.
    pub contract: u64,
    /// Largest fraction the local staking system can slash.
    pub max_slash: SlashRatio,
}

/// A destination's claim on one user's collateral.
#[derive(Debug, Clone, Copy, PartialEq, Eq, Structural)]
pub struct Lien {
    /// The destination holding the claim.
    pub lienholder: u64,
    /// Claimed amount: committed low end, in-flight high end.
    pub amount: ValueRange,
    /// Slashable fraction, fixed at the first stake to this destination.
    pub slashable: SlashRatio,
}

/// Kind of a journaled in-flight operation.
#[derive(Debug, Clone, Copy, PartialEq, Eq, Structural)]
pub enum TxType {
    /// An in-flight cross-chain stake.
    Stake,
    /// An in-flight cross-chain unstake.
    Unstake,
}

/// A journaled in-flight operation, with enough data to commit or roll back.
#[derive(Debug, Clone, Copy, PartialEq, Eq, Structural)]
pub struct Tx {
    /// Unique, monotonically assigned id.
    pub id: u64,
    pub ty: TxType,
    /// Amount reserved by the operation.
    pub amount: u64,
    /// Slashable fraction of the lien the operation belongs to.
    pub slashable: SlashRatio,
    /// The user whose collateral is claimed.
    pub user: u64,
    /// The destination the claim belongs to.
    pub lienholder: u64,
}

/// Per-user vault bookkeeping.
#[derive(Debug, Clone, PartialEq, Eq)]
pub struct UserAccount {
    /// The user's address.
    pub user: u64,
    /// Total bonded collateral; mutated synchronously, never optimistic.
    pub collateral: u64,
    /// Sum over liens of the claimed amount times the destination's
    /// slashable fraction, floored per operation.
    pub total_slashable: ValueRange,
    /// The user's liens, sorted strictly ascending by lienholder.
    pub liens: Vec<Lien>,
}

/// Weight picking the amounts of one user's pending stakes.
pub open spec fn w_user_amount(user: u64) -> spec_fn(Tx) -> int {
    |t: Tx|
        if t.ty == TxType::Stake && t.user == user {
            t.amount as int
        } else {
            0 as int
        }
}

/// Weight picking the amounts of the pending stakes of one (user,
/// lienholder) pair.
pub open spec fn w_pair_amount(user: u64, lienholder: u64) -> spec_fn(Tx) -> int {
    |t: Tx|
        if t.ty == TxType::Stake && t.user == user && t.lienholder == lienholder {
            t.amount as int
        } else {
            0 as int
        }
}

/// Weight picking the floored slashable parts of one user's pending stakes.
pub open spec fn w_user_slash(user: u64) -> spec_fn(Tx) -> int {
    |t: Tx|
        if t.ty == TxType::Stake && t.user == user {
            spec_mul_floor(t.amount, t.slashable)
        } else {
            0 as int
        }
}

/// The largest committed (low) end among the liens, or zero when none.
pub open spec fn max_lien_lo(liens: Seq<Lien>) -> int
    decreases liens.len(),
{
    if liens.len() == 0 {
        0
    } else {
        let rest = max_lien_lo(liens.drop_last());
        if liens.last().amount.0 > rest {
            liens.last().amount.0 as int
        } else {
            rest
        }
    }
}

/// The largest optimistic (high) end among the liens, or zero when none.
pub open spec fn max_lien_hi(liens: Seq<Lien>) -> int
    decreases liens.len(),
{
    if liens.len() == 0 {
        0
    } else {
        let rest = max_lien_hi(liens.drop_last());
        if liens.last().amount.1 > rest {
            liens.last().amount.1 as int
        } else {
            rest
        }
    }
}

/// The maximum is an upper bound of every lien's high end.
pub proof fn lemma_max_hi_ge(liens: Seq<Lien>, i: int)
    requires
        0 <= i < liens.len(),
    ensures
        max_lien_hi(liens) >= liens[i].amount.1,
    decreases liens.len(),
{
    if i < liens.len() - 1 {
        assert(liens.drop_last()[i] == liens[i]);
        lemma_max_hi_ge(liens.drop_last(), i);
    }
}

/// The maximum of the high ends is reached, or the table is empty.
pub proof fn lemma_max_hi_le(liens: Seq<Lien>, c: int)
    requires
        c >= 0,
        forall|i: int| 0 <= i < liens.len() ==> (#[trigger] liens[i]).amount.1 <= c,
    ensures
        max_lien_hi(liens) <= c,
    decreases liens.len(),
{
    if liens.len() > 0 {
        assert forall|i: int| 0 <= i < liens.drop_last().len()
            implies (#[trigger] liens.drop_last()[i]).amount.1 <= c by {
            assert(liens.drop_last()[i] == liens[i]);
        }
        lemma_max_hi_le(liens.drop_last(), c);
        assert(liens.last() == liens[liens.len() - 1]);
    }
}

/// The maximum committed end is an upper bound of every lien's low end.
pub proof fn lemma_max_lo_ge(liens: Seq<Lien>, i: int)
    requires
        0 <= i < liens.len(),
    ensures
        max_lien_lo(liens) >= liens[i].amount.0,
    decreases liens.len(),
{
    if i < liens.len() - 1 {
        assert(liens.drop_last()[i] == liens[i]);
        lemma_max_lo_ge(liens.drop_last(), i);
    }
}

/// With every lien well-formed, the committed maximum never exceeds the
/// optimistic one.
pub proof fn lemma_max_lo_le_hi(liens: Seq<Lien>)
    requires
        forall|i: int| 0 <= i < liens.len() ==> (#[trigger] liens[i]).amount.wf(),
    ensures
        0 <= max_lien_lo(liens) <= max_lien_hi(liens),
    decreases liens.len(),
{
    if liens.len() > 0 {
        assert forall|i: int| 0 <= i < liens.drop_last().len()
            implies (#[trigger] liens.drop_last()[i]).amount.wf() by {
            assert(liens.drop_last()[i] == liens[i]);
        }
        lemma_max_lo_le_hi(liens.drop_last());
        assert(liens.last() == liens[liens.len() - 1]);
    }
}

/// One lien's well-formedness against the journal: valid range, valid
/// fraction, and the optimistic end exceeding the committed one by exactly
/// the pair's pending stakes.
pub open spec fn lien_wf(l: Lien, txs: Seq<Tx>, user: u64) -> bool {
    &&& l.amount.wf()
    &&& l.slashable.wf()
    &&& l.amount.1 == l.amount.0 + seq_sum(txs, w_pair_amount(user, l.lienholder))
}

/// There is a lien for `lienholder` carrying exactly the fraction
/// `slashable` in the table.
pub open spec fn has_lien_entry(liens: Seq<Lien>, lienholder: u64, slashable: SlashRatio) -> bool {
    exists|lj: int|
        0 <= lj < liens.len() && (#[trigger] liens[lj]).lienholder == lienholder
            && liens[lj].slashable == slashable
}

/// Every (lienholder, slashable) pair present in `pre` is present in `post`:
/// what pending transactions are anchored to survives the change.
pub open spec fn liens_cover(post: Seq<Lien>, pre: Seq<Lien>) -> bool {
    forall|li: int|
        0 <= li < pre.len() ==> has_lien_entry(
            post,
            (#[trigger] pre[li]).lienholder,
            pre[li].slashable,
        )
}

/// A lien table covers itself.
pub proof fn lemma_liens_cover_refl(s: Seq<Lien>)
    ensures
        liens_cover(s, s),
{
    assert forall|li: int| 0 <= li < s.len() implies has_lien_entry(
        s,
        (#[trigger] s[li]).lienholder,
        s[li].slashable,
    ) by {
        let l = s[li];
        assert(0 <= li < s.len() && s[li].lienholder == l.lienholder
            && s[li].slashable == l.slashable);
    }
}

/// A table whose entries keep their lienholder and slashable fraction at
/// every index covers the old one.
pub proof fn lemma_liens_cover_pointwise(post: Seq<Lien>, pre: Seq<Lien>)
    requires
        post.len() >= pre.len(),
        forall|k: int|
            0 <= k < pre.len() ==> (#[trigger] post[k]).lienholder == pre[k].lienholder
                && post[k].slashable == pre[k].slashable,
    ensures
        liens_cover(post, pre),
{
    assert forall|li: int| 0 <= li < pre.len() implies has_lien_entry(
        post,
        (#[trigger] pre[li]).lienholder,
        pre[li].slashable,
    ) by {
        assert(0 <= li < post.len() && post[li].lienholder == pre[li].lienholder
            && post[li].slashable == pre[li].slashable);
    }
}

/// Strictly ascending lienholders.
pub open spec fn liens_sorted_seq(s: Seq<Lien>) -> bool {
    forall|i: int, j: int|
        0 <= i < j < s.len() ==> (#[trigger] s[i]).lienholder < (#[trigger] s[j]).lienholder
}

/// In a sorted lien table a lienholder determines its index: the `choose`
/// behind `lien_ix` lands on any index that holds the lienholder.
pub proof fn lemma_lien_at_ix(a: UserAccount, i: int)
    requires
        a.liens_sorted(),
        0 <= i < a.liens@.len(),
    ensures
        a.has_lien(a.liens@[i].lienholder),
        a.lien_ix(a.liens@[i].lienholder) == i,
        a.lien_at(a.liens@[i].lienholder) == a.liens@[i],
{
    assert(a.has_lien(a.liens@[i].lienholder));
    let j = a.lien_ix(a.liens@[i].lienholder);
    if j < i {
        assert(a.liens@[j].lienholder < a.liens@[i].lienholder);
    } else if i < j {
        assert(a.liens@[i].lienholder < a.liens@[j].lienholder);
    }
}

impl UserAccount {
    /// There is a lien for `lienholder`.
    pub open spec fn has_lien(self, lienholder: u64) -> bool {
        exists|i: int|
            0 <= i < self.liens@.len() && (#[trigger] self.liens@[i]).lienholder == lienholder
    }

    /// Index of the lien for `lienholder` (unique when the liens are sorted).
    pub open spec fn lien_ix(self, lienholder: u64) -> int {
        choose|i: int|
            0 <= i < self.liens@.len() && (#[trigger] self.liens@[i]).lienholder == lienholder
    }

    /// The lien for `lienholder`.
    pub open spec fn lien_at(self, lienholder: u64) -> Lien {
        self.liens@[self.lien_ix(lienholder)]
    }

    /// All in-flight operations of this account are resolved: every lien and
    /// the slashable total sit at a single point.
    pub open spec fn settled(self) -> bool {
        &&& forall|i: int|
            0 <= i < self.liens@.len() ==> (#[trigger] self.liens@[i]).amount.0
                == self.liens@[i].amount.1
        &&& self.total_slashable.0 == self.total_slashable.1
    }

    /// Liens are sorted strictly ascending by lienholder (so each
    /// destination appears once).
    pub open spec fn liens_sorted(self) -> bool {
        liens_sorted_seq(self.liens@)
    }

    /// Structural well-formedness against the journal.
    pub open spec fn wf(self, txs: Seq<Tx>) -> bool {
        &&& self.liens_sorted()
        &&& forall|i: int| 0 <= i < self.liens@.len() ==> lien_wf(#[trigger] self.liens@[i], txs, self.user)
        &&& self.total_slashable.wf()
        &&& self.total_slashable.1 == self.total_slashable.0 + seq_sum(txs, w_user_slash(self.user))
    }

    /// The collateral rule on the optimistic ends: no resolution of the
    /// in-flight operations can let a lien or the slashable total outgrow
    /// the collateral.
    pub open spec fn solvent(self) -> bool {
        &&& max_lien_hi(self.liens@) <= self.collateral
        &&& self.total_slashable.1 <= self.collateral
    }

    /// An account as created on first bond: no liens, nothing slashable.
    pub open spec fn is_fresh(self, user: u64) -> bool {
        &&& self.user == user
        &&& self.total_slashable == ValueRange(0, 0)
        &&& self.liens@.len() == 0
    }
}

/// What `account` reports for one user.
#[derive(Debug, Clone, Copy, PartialEq, Eq, Structural)]
pub struct AccountResponse {
    /// The collateral denomination.
    pub denom: u64,
    /// Bonded collateral.
    pub bonded: u64,
    /// Free collateral as a range over the resolutions of in-flight
    /// operations.
    pub free: ValueRange,
}

/// What `account_details` reports for one user.
#[derive(Debug, Clone, Copy, PartialEq, Eq, Structural)]
pub struct AccountDetailsResponse {
    pub denom: u64,
    pub bonded: u64,
    pub free: ValueRange,
    /// The largest single lien, over both resolutions.
    pub max_lien: ValueRange,
    /// The total slashable exposure.
    pub total_slashable: ValueRange,
}

/// One claim reported by `account_claims`.
#[derive(Debug, Clone, Copy, PartialEq, Eq, Structural)]
pub struct LienResponse {
    pub lienholder: u64,
    pub amount: ValueRange,
}

/// One row reported by `all_accounts`.
#[derive(Debug, Clone, Copy, PartialEq, Eq, Structural)]
pub struct AllAccountsResponseItem {
    pub user: u64,
    pub account: AccountResponse,
}

/// The free collateral of an account: what is left above the larger of the
/// maximum lien and the slashable total, at both ends.
pub open spec fn spec_free(a: UserAccount) -> ValueRange {
    let mhi = max_lien_hi(a.liens@);
    let mlo = max_lien_lo(a.liens@);
    let top = if mhi > a.total_slashable.1 {
        mhi
    } else {
        a.total_slashable.1 as int
    };
    let bot = if mlo > a.total_slashable.0 {
        mlo
    } else {
        a.total_slashable.0 as int
    };
    ValueRange((a.collateral - top) as u64, (a.collateral - bot) as u64)
}

/// The page of claims that follows `after` (exclusive), at most `limit`
/// entries, in table order.
pub open spec fn spec_claims_page(liens: Seq<Lien>, after: Option<u64>, limit: int) -> Seq<
    LienResponse,
>
    decreases liens.len(),
{
    if liens.len() == 0 || limit <= 0 {
        Seq::empty()
    } else {
        let h = liens[0];
        let skipped = (match after {
            Some(a) => h.lienholder <= a,
            None => false,
        });
        if skipped {
            spec_claims_page(liens.skip(1), after, limit)
        } else {
            seq![(LienResponse { lienholder: h.lienholder, amount: h.amount })]
                + spec_claims_page(liens.skip(1), after, limit - 1)
        }
    }
}

/// The page of accounts that follows `after` (exclusive), at most `limit`
/// entries, in table order; with `withc`, accounts without collateral are
/// passed over.
pub open spec fn spec_accounts_page(
    users: Seq<UserAccount>,
    denom: u64,
    withc: bool,
    after: Option<u64>,
    limit: int,
) -> Seq<AllAccountsResponseItem>
    decreases users.len(),
{
    if users.len() == 0 || limit <= 0 {
        Seq::empty()
    } else {
        let h = users[0];
        let skipped = (match after {
            Some(a) => h.user <= a,
            None => false,
        }) || (withc && h.collateral == 0);
        if skipped {
            spec_accounts_page(users.skip(1), denom, withc, after, limit)
        } else {
            seq![
                (AllAccountsResponseItem {
                    user: h.user,
                    account: AccountResponse { denom, bonded: h.collateral, free: spec_free(h) },
                }),
            ] + spec_accounts_page(users.skip(1), denom, withc, after, limit - 1)
        }
    }
}

/// The page of journal rows below `after` (exclusive), newest first, at
/// most `limit` entries.
pub open spec fn spec_txs_page_desc(txs: Seq<Tx>, after: Option<u64>, limit: int) -> Seq<Tx>
    decreases txs.len(),
{
    if txs.len() == 0 || limit <= 0 {
        Seq::empty()
    } else {
        let h = txs.last();
        let skipped = (match after {
            Some(a) => h.id >= a,
            None => false,
        });
        if skipped {
            spec_txs_page_desc(txs.drop_last(), after, limit)
        } else {
            seq![h] + spec_txs_page_desc(txs.drop_last(), after, limit - 1)
        }
    }
}

/// Weight picking a lien's slashable fraction in parts per billion,
/// clamped at one.
pub open spec fn w_lien_ppb() -> spec_fn(Lien) -> int {
    |l: Lien|
        if l.slashable.ppb > RATIO_ONE {
            RATIO_ONE as int
        } else {
            l.slashable.ppb as int
        }
}

/// One lien after the uniform slashing repair: it gives up `d`, saturating
/// at zero.
pub open spec fn spec_prop_lien(l: Lien, d: u64) -> Lien {
    let red = if d > l.amount.0 {
        l.amount.0 as int
    } else {
        d as int
    };
    Lien {
        amount: ValueRange((l.amount.0 - red) as u64, (l.amount.1 - red) as u64),
        ..l
    }
}

/// The slashable total after the uniform repair has processed the first
/// `j` liens, each floored slashable part saturating at the total's floor.
pub open spec fn spec_prop_ts(liens: Seq<Lien>, d: u64, ts: int, j: int) -> int
    decreases j,
{
    if j <= 0 {
        ts
    } else {
        let prev = spec_prop_ts(liens, d, ts, j - 1);
        let l = liens[j - 1];
        let red = if d > l.amount.0 {
            l.amount.0 as int
        } else {
            d as int
        };
        let ds = spec_mul_floor_int(red, l.slashable);
        prev - (if ds > prev {
            prev
        } else {
            ds
        })
    }
}

/// One lien after the cap repair: nothing above the collateral survives.
pub open spec fn spec_cap_lien(l: Lien, c: u64) -> Lien {
    let delta = if l.amount.1 > c {
        l.amount.1 - c
    } else {
        0
    };
    Lien {
        amount: ValueRange((l.amount.0 - delta) as u64, (l.amount.1 - delta) as u64),
        ..l
    }
}

/// The slashable total after the cap repair has processed the first `j`
/// liens.
pub open spec fn spec_cap_ts(liens: Seq<Lien>, c: u64, ts: int, j: int) -> int
    decreases j,
{
    if j <= 0 {
        ts
    } else {
        let prev = spec_cap_ts(liens, c, ts, j - 1);
        let l = liens[j - 1];
        let delta = if l.amount.1 > c {
            l.amount.1 - c
        } else {
            0
        };
        let ds = spec_mul_floor_int(delta, l.slashable);
        prev - (if ds > prev {
            prev
        } else {
            ds
        })
    }
}

/// The slashable fraction a stake on `lienholder` is accounted with: the
/// fraction the existing lien was opened under, or the destination's current
/// maximum for a first stake.
pub open spec fn spec_stake_ratio(a: UserAccount, lienholder: u64, max_slash: SlashRatio) -> SlashRatio {
    if a.has_lien(lienholder) {
        a.lien_at(lienholder).slashable
    } else {
        max_slash
    }
}

/// Whether a synchronous (immediately committed) stake of `amount` on
/// `lienholder` would break the collateral rule: the grown lien, or the
/// grown slashable total, would exceed the collateral even optimistically.
pub open spec fn stake_breaks_rule(
    a: UserAccount,
    lienholder: u64,
    max_slash: SlashRatio,
    amount: u64,
) -> bool {
    let new_hi = (if a.has_lien(lienholder) {
        a.lien_at(lienholder).amount.1 as int
    } else {
        0
    }) + amount;
    let cand_max = if max_lien_hi(a.liens@) > new_hi {
        max_lien_hi(a.liens@)
    } else {
        new_hi
    };
    let inc = spec_mul_floor(amount, spec_stake_ratio(a, lienholder, max_slash));
    cand_max > a.collateral || a.total_slashable.1 + inc > a.collateral
}

/// Whether a prepared cross-chain stake of `amount` on `lienholder` must be
/// rejected.  The test is deliberately conservative: the whole of the
/// user's pending stake amounts, plus the new one, is treated as landing on
/// this lien's committed base and held — strictly — against the collateral
/// together with the largest existing lien; and the slashable total, grown
/// by the whole pending amount at this destination's fraction, must stay
/// within the collateral.  So no sequence of commits of outstanding
/// transactions can breach the collateral rule, and a user whose largest
/// lien already uses the whole collateral cannot open even the smallest
/// stake.
pub open spec fn remote_stake_breaks_rule(
    a: UserAccount,
    txs: Seq<Tx>,
    lienholder: u64,
    max_slash: SlashRatio,
    amount: u64,
) -> bool {
    let r_used = spec_stake_ratio(a, lienholder, max_slash);
    let pend = amount + seq_sum(txs, w_user_amount(a.user));
    let hypo = (if a.has_lien(lienholder) {
        a.lien_at(lienholder).amount.0 as int
    } else {
        0
    }) + pend;
    let cand = if max_lien_hi(a.liens@) > hypo {
        max_lien_hi(a.liens@)
    } else {
        hypo
    };
    cand >= a.collateral || a.total_slashable.1 + spec_mul_floor_int(pend, r_used) > a.collateral
}

/// Finds where `lienholder` sits in a sorted lien table: the index of the
/// first lien at or above it, and whether it is an exact hit.
fn locate_lien(liens: &Vec<Lien>, lienholder: u64) -> (r: (usize, bool))
    requires
        liens_sorted_seq(liens@),
    ensures
        r.0 <= liens@.len(),
        forall|i: int| 0 <= i < r.0 ==> (#[trigger] liens@[i]).lienholder < lienholder,
        r.1 ==> r.0 < liens@.len() && liens@[r.0 as int].lienholder == lienholder,
        !r.1 && r.0 < liens@.len() ==> liens@[r.0 as int].lienholder > lienholder,
        !r.1 ==> forall|i: int|
            0 <= i < liens@.len() ==> (#[trigger] liens@[i]).lienholder != lienholder,
    {
    let mut i: usize = 0;
    while i < liens.len() && liens[i].lienholder < lienholder
        invariant
            i <= liens@.len(),
            forall|j: int| 0 <= j < i ==> (#[trigger] liens@[j]).lienholder < lienholder,
        decreases liens@.len() - i,
    {
        i = i + 1;
    }
    let found = i < liens.len() && liens[i].lienholder == lienholder;
    proof {
        if !found {
            assert forall|k: int| 0 <= k < liens@.len()
                implies (#[trigger] liens@[k]).lienholder != lienholder by {
                if k >= i {
                    assert(liens@[i as int].lienholder >= lienholder);
                    if k > i {
                        assert(liens@[i as int].lienholder < liens@[k].lienholder);
                    }
                }
            }
        }
    }
    (i, found)
}

impl VaultContract {
    /// Users are sorted strictly ascending by address (so each appears once).
    pub open spec fn users_sorted(self) -> bool {
        forall|i: int, j: int|
            0 <= i < j < self.users@.len()
                ==> (#[trigger] self.users@[i]).user < (#[trigger] self.users@[j]).user
    }

    /// The journal is sorted strictly ascending by id, and no id exceeds the
    /// running counter.
    pub open spec fn txs_sorted(self) -> bool {
        &&& forall|i: int, j: int|
            0 <= i < j < self.pending@.len()
                ==> (#[trigger] self.pending@[i]).id < (#[trigger] self.pending@[j]).id
        &&& forall|i: int| 0 <= i < self.pending@.len() ==> (#[trigger] self.pending@[i]).id <= self.tx_count
    }

    /// There is an account for `user`.
    pub open spec fn has_user(self, user: u64) -> bool {
        exists|i: int| 0 <= i < self.users@.len() && (#[trigger] self.users@[i]).user == user
    }

    /// Index of the account for `user` (unique when the users are sorted).
    pub open spec fn user_ix(self, user: u64) -> int {
        choose|i: int| 0 <= i < self.users@.len() && (#[trigger] self.users@[i]).user == user
    }

    /// The account for `user`.
    pub open spec fn user_at(self, user: u64) -> UserAccount {
        self.users@[self.user_ix(user)]
    }

    /// There is a pending transaction under this id.
    pub open spec fn has_tx(self, tx_id: u64) -> bool {
        exists|k: int| 0 <= k < self.pending@.len() && (#[trigger] self.pending@[k]).id == tx_id
    }

    /// Index of the pending transaction under this id (unique when the
    /// journal is sorted).
    pub open spec fn tx_ix(self, tx_id: u64) -> int {
        choose|k: int| 0 <= k < self.pending@.len() && (#[trigger] self.pending@[k]).id == tx_id
    }

    /// The pending transaction under this id.
    pub open spec fn tx_at(self, tx_id: u64) -> Tx {
        self.pending@[self.tx_ix(tx_id)]
    }

    /// A journal row is anchored: its user exists and holds a lien for the
    /// row's destination, with the fraction the row was opened under.
    pub open spec fn tx_anchored(self, t: Tx) -> bool {
        &&& t.ty == TxType::Stake
        &&& t.slashable.wf()
        &&& self.has_user(t.user)
        &&& has_lien_entry(self.user_at(t.user).liens@, t.lienholder, t.slashable)
    }

    /// Whole-vault well-formedness.
    pub open spec fn wf(self) -> bool {
        &&& self.users_sorted()
        &&& self.txs_sorted()
        &&& forall|i: int| 0 <= i < self.pending@.len() ==> self.tx_anchored(#[trigger] self.pending@[i])
        &&& forall|i: int| 0 <= i < self.users@.len() ==> (#[trigger] self.users@[i]).wf(self.pending@)
    }

    /// The collateral rule, for every user.
    pub open spec fn solvent(self) -> bool {
        forall|i: int| 0 <= i < self.users@.len() ==> (#[trigger] self.users@[i]).solvent()
    }
}

/// The vault's whole state.
#[derive(Debug, Clone, PartialEq, Eq)]
pub struct VaultContract {
    /// General configuration.
    pub config: Config,
    /// The local staking collaborator, once its init reply arrived.
    pub local_staking: Option<LocalStaking>,
    /// Per-user accounts, sorted strictly ascending by address.
    pub users: Vec<UserAccount>,
    /// Number of journal ids handed out so far.
    pub tx_count: u64,
    /// Pending in-flight transactions, sorted strictly ascending by id.
    pub pending: Vec<Tx>,
}

/// Every account but `user`'s, and the configuration, is the same in `post`
/// as in `pre`; the journal may differ.
pub open spec fn accounts_same_except(pre: VaultContract, post: VaultContract, user: u64) -> bool {
    &&& post.config == pre.config
    &&& post.local_staking == pre.local_staking
    &&& forall|u2: u64| u2 != user ==> #[trigger] post.has_user(u2) == pre.has_user(u2)
    &&& forall|u2: u64|
        u2 != user && pre.has_user(u2) ==> #[trigger] post.user_at(u2) == pre.user_at(u2)
}

/// Everything outside `user`'s account is the same in `post` as in `pre`.
pub open spec fn same_except_user(pre: VaultContract, post: VaultContract, user: u64) -> bool {
    &&& accounts_same_except(pre, post, user)
    &&& post.tx_count == pre.tx_count
    &&& post.pending@ == pre.pending@
}

/// In a sorted user table an address determines its index: the `choose`
/// behind `user_ix` lands on any index that holds the address.
pub proof fn lemma_user_ix_unique(v: VaultContract, i: int, user: u64)
    requires
        v.users_sorted(),
        0 <= i < v.users@.len(),
        v.users@[i].user == user,
    ensures
        v.has_user(user),
        v.user_ix(user) == i,
        v.user_at(user) == v.users@[i],
{
    assert(v.has_user(user));
    let j = v.user_ix(user);
    if j < i {
        assert(v.users@[j].user < v.users@[i].user);
    } else if i < j {
        assert(v.users@[i].user < v.users@[j].user);
    }
}

/// In a sorted lien table a lienholder determines its index.
pub proof fn lemma_lien_ix_unique(a: UserAccount, i: int, j: int)
    requires
        a.liens_sorted(),
        0 <= i < a.liens@.len(),
        0 <= j < a.liens@.len(),
        a.liens@[i].lienholder == a.liens@[j].lienholder,
    ensures
        i == j,
{
    if i < j {
        assert(a.liens@[i].lienholder < a.liens@[j].lienholder);
    } else if j < i {
        assert(a.liens@[j].lienholder < a.liens@[i].lienholder);
    }
}

impl VaultContract {
    /// An empty vault for the given collateral denomination.
    pub fn new(denom: u64) -> (v: VaultContract)
        ensures
            v.wf(),
            v.solvent(),
            v.config.denom == denom,
            v.local_staking is None,
            v.users@.len() == 0,
            v.pending@.len() == 0,
            v.tx_count == 0,
    {
        VaultContract {
            config: Config { denom },
            local_staking: None,
            users: Vec::new(),
            tx_count: 0,
            pending: Vec::new(),
        }
    }

    /// Records the local staking collaborator once its address and maximum
    /// slashing fraction are known, as its instantiation reply reports them.
    pub fn set_local_staking(&mut self, contract: u64, max_slash: SlashRatio)
        ensures
            *final(self) == (VaultContract {
                local_staking: Some(LocalStaking { contract, max_slash }),
                ..*old(self)
            }),
    {
        self.local_staking = Some(LocalStaking { contract, max_slash });
    }

    /// Hands out the next journal id.
    pub fn next_tx_id(&mut self) -> (id: u64)
        requires
            old(self).tx_count < u64::MAX,
        ensures
            id == old(self).tx_count + 1,
            *final(self) == (VaultContract { tx_count: id, ..*old(self) }),
    {
        self.tx_count = self.tx_count + 1;
        self.tx_count
    }

    /// Finds where `user` sits in the sorted account table: the index of the
    /// first account at or above `user`, and whether it is an exact hit.
    fn locate_user(&self, user: u64) -> (r: (usize, bool))
        requires
            self.users_sorted(),
        ensures
            r.0 <= self.users@.len(),
            forall|i: int| 0 <= i < r.0 ==> (#[trigger] self.users@[i]).user < user,
            r.1 ==> r.0 < self.users@.len() && self.users@[r.0 as int].user == user,
            !r.1 && r.0 < self.users@.len() ==> self.users@[r.0 as int].user > user,
            !r.1 ==> !self.has_user(user),
            r.1 ==> self.has_user(user) && self.user_ix(user) == r.0,
    {
        let mut i: usize = 0;
        while i < self.users.len() && self.users[i].user < user
            invariant
                i <= self.users@.len(),
                forall|j: int| 0 <= j < i ==> (#[trigger] self.users@[j]).user < user,
            decreases self.users@.len() - i,
        {
            i = i + 1;
        }
        let found = i < self.users.len() && self.users[i].user == user;
        proof {
            if found {
                lemma_user_ix_unique(*self, i as int, user);
            } else {
                if self.has_user(user) {
                    let j = choose|j: int|
                        0 <= j < self.users@.len() && (#[trigger] self.users@[j]).user == user;
                    if j < i as int {
                        assert(self.users@[j].user < user);
                    } else {
                        assert(i < self.users@.len());
                        if (i as int) < j {
                            assert(self.users@[i as int].user < self.users@[j].user);
                        }
                        assert(self.users@[i as int].user > user);
                    }
                }
            }
        }
        (i, found)
    }

    /// The largest optimistic lien end of the account, zero when none.
    fn max_lien_hi_of(liens: &Vec<Lien>) -> (m: u64)
        ensures
            m == max_lien_hi(liens@),
    {
        let mut m: u64 = 0;
        let mut i: usize = 0;
        while i < liens.len()
            invariant
                i <= liens@.len(),
                m == max_lien_hi(liens@.take(i as int)),
            decreases liens@.len() - i,
        {
            proof {
                assert(liens@.take(i + 1).drop_last() =~= liens@.take(i as int));
            }
            if liens[i].amount.1 > m {
                m = liens[i].amount.1;
            }
            i = i + 1;
        }
        proof {
            assert(liens@.take(liens@.len() as int) =~= liens@);
        }
        m
    }

    /// The largest committed lien end of the account, zero when none.
    fn max_lien_lo_of(liens: &Vec<Lien>) -> (m: u64)
        ensures
            m == max_lien_lo(liens@),
    {
        let mut m: u64 = 0;
        let mut i: usize = 0;
        while i < liens.len()
            invariant
                i <= liens@.len(),
                m == max_lien_lo(liens@.take(i as int)),
            decreases liens@.len() - i,
        {
            proof {
                assert(liens@.take(i + 1).drop_last() =~= liens@.take(i as int));
            }
            if liens[i].amount.0 > m {
                m = liens[i].amount.0;
            }
            i = i + 1;
        }
        proof {
            assert(liens@.take(liens@.len() as int) =~= liens@);
        }
        m
    }

    /// Bonds `amount` of collateral for `user`, creating the account on the
    /// first bond.  Rejects funds in another denomination.
    pub fn bond(&mut self, user: u64, amount: u64, denom: u64) -> (r: Result<(), ContractError>)
        requires
            old(self).wf(),
            old(self).solvent(),
            old(self).has_user(user) ==> old(self).user_at(user).collateral + amount <= u64::MAX,
        ensures
            final(self).wf(),
            final(self).solvent(),
            denom != old(self).config.denom ==> r == Err::<(), ContractError>(
                ContractError::UnexpectedDenom(old(self).config.denom),
            ) && *final(self) == *old(self),
            denom == old(self).config.denom ==> {
                &&& r == Ok::<(), ContractError>(())
                &&& same_except_user(*old(self), *final(self), user)
                &&& final(self).has_user(user)
                &&& (if old(self).has_user(user) {
                    final(self).user_at(user) == (UserAccount {
                        collateral: (old(self).user_at(user).collateral + amount) as u64,
                        ..old(self).user_at(user)
                    })
                } else {
                    final(self).user_at(user).is_fresh(user)
                        && final(self).user_at(user).collateral == amount
                })
            },
    {
        if denom != self.config.denom {
            return Err(ContractError::UnexpectedDenom(self.config.denom));
        }
        let (ix, found) = self.locate_user(user);
        if found {
            let ghost pre = *self;
            let old_coll = self.users[ix].collateral;
            let mut account = self.users.remove(ix);
            account.collateral = old_coll + amount;
            self.users.insert(ix, account);
            proof {
                assert(self.users@ =~= pre.users@.update(ix as int, self.users@[ix as int]));
                lemma_liens_cover_refl(self.users@[ix as int].liens@);
                self.lemma_update_user_frame(pre, ix as int, user);
                assert(self.users@[ix as int].solvent());
            }
        } else {
            let ghost pre = *self;
            let account = UserAccount {
                user,
                collateral: amount,
                total_slashable: ValueRange(0, 0),
                liens: Vec::new(),
            };
            self.users.insert(ix, account);
            proof {
                pre.users@.insert_ensures(ix as int, self.users@[ix as int]);
                assert forall|i: int| 0 <= i < pre.pending@.len()
                    implies (w_user_slash(user))(#[trigger] pre.pending@[i]) == 0 by {
                    let t = pre.pending@[i];
                    assert(pre.tx_anchored(t));
                    if t.user == user {
                        assert(pre.has_user(user));
                    }
                }
                lemma_seq_sum_zero(pre.pending@, w_user_slash(user));
                let a = self.users@[ix as int];
                assert(a.wf(pre.pending@));
                self.lemma_insert_user_frame(pre, ix as int, user);
                assert(a.solvent());
            }
        }
        Ok(())
    }

    /// After updating the account at `ix` without touching its address or
    /// its liens-to-journal relation, the vault is still well formed and
    /// everything but that user is unchanged.
    proof fn lemma_update_user_frame(self, pre: VaultContract, ix: int, user: u64)
        requires
            pre.wf(),
            0 <= ix < pre.users@.len(),
            pre.users@[ix].user == user,
            self.users@ == pre.users@.update(ix, self.users@[ix]),
            self.users@[ix].user == user,
            self.users@[ix].wf(pre.pending@),
            liens_cover(self.users@[ix].liens@, pre.users@[ix].liens@),
            self.config == pre.config,
            self.local_staking == pre.local_staking,
            self.tx_count == pre.tx_count,
            self.pending@ == pre.pending@,
        ensures
            self.wf(),
            same_except_user(pre, self, user),
            self.has_user(user),
            self.user_at(user) == self.users@[ix],
            forall|i: int|
                0 <= i < pre.users@.len() && i != ix
                    ==> (#[trigger] pre.users@[i]).solvent() ==> self.users@[i].solvent(),
    {
        assert forall|i: int, j: int| 0 <= i < j < self.users@.len()
            implies (#[trigger] self.users@[i]).user < (#[trigger] self.users@[j]).user by {
            assert(pre.users@[i].user < pre.users@[j].user);
        }
        lemma_user_ix_unique(self, ix, user);
        assert forall|i: int| 0 <= i < self.pending@.len()
            implies self.tx_anchored(#[trigger] self.pending@[i]) by {
            let t = self.pending@[i];
            assert(pre.tx_anchored(t));
            let pj = pre.user_ix(t.user);
            lemma_user_ix_unique(pre, pj, t.user);
            if t.user == user {
                lemma_user_ix_unique(pre, ix, user);
                assert(pj == ix);
                lemma_user_ix_unique(self, ix, t.user);
                let li = choose|li: int|
                    0 <= li < pre.users@[ix].liens@.len()
                        && (#[trigger] pre.users@[ix].liens@[li]).lienholder == t.lienholder
                        && pre.users@[ix].liens@[li].slashable == t.slashable;
                assert(has_lien_entry(
                    self.users@[ix].liens@,
                    pre.users@[ix].liens@[li].lienholder,
                    pre.users@[ix].liens@[li].slashable,
                ));
            } else {
                assert(self.users@[pj] == pre.users@[pj]);
                lemma_user_ix_unique(self, pj, t.user);
            }
        }
        assert forall|u2: u64| u2 != user implies #[trigger] self.has_user(u2) == pre.has_user(
            u2,
        ) by {
            if pre.has_user(u2) {
                let j = pre.user_ix(u2);
                lemma_user_ix_unique(pre, j, u2);
                assert(self.users@[j].user == u2);
                assert(self.has_user(u2));
            }
            if self.has_user(u2) {
                let j = self.user_ix(u2);
                lemma_user_ix_unique(self, j, u2);
                assert(j != ix);
                assert(pre.users@[j].user == u2);
                assert(pre.has_user(u2));
            }
        }
        assert forall|u2: u64| u2 != user && pre.has_user(u2) implies #[trigger] self.user_at(u2)
            == pre.user_at(u2) by {
            let j = pre.user_ix(u2);
            lemma_user_ix_unique(pre, j, u2);
            assert(j != ix);
            lemma_user_ix_unique(self, j, u2);
        }
    }

    /// After inserting a fresh, well-formed account at its sorted position,
    /// the vault is still well formed and everything else is unchanged.
    proof fn lemma_insert_user_frame(self, pre: VaultContract, ix: int, user: u64)
        requires
            pre.wf(),
            0 <= ix <= pre.users@.len(),
            !pre.has_user(user),
            forall|i: int| 0 <= i < ix ==> (#[trigger] pre.users@[i]).user < user,
            forall|i: int| ix <= i < pre.users@.len() ==> (#[trigger] pre.users@[i]).user > user,
            self.users@ == pre.users@.insert(ix, self.users@[ix]),
            self.users@[ix].user == user,
            self.users@[ix].wf(pre.pending@),
            self.config == pre.config,
            self.local_staking == pre.local_staking,
            self.tx_count == pre.tx_count,
            self.pending@ == pre.pending@,
        ensures
            self.wf(),
            same_except_user(pre, self, user),
            self.has_user(user),
            self.user_at(user) == self.users@[ix],
            forall|i: int|
                ix <= i < pre.users@.len()
                    ==> (#[trigger] pre.users@[i]) == self.users@[i + 1],
            forall|i: int| 0 <= i < ix ==> (#[trigger] pre.users@[i]) == self.users@[i],
    {
        pre.users@.insert_ensures(ix, self.users@[ix]);
        assert forall|i: int, j: int| 0 <= i < j < self.users@.len()
            implies (#[trigger] self.users@[i]).user < (#[trigger] self.users@[j]).user by {
            if i < ix && j < ix {
                assert(pre.users@[i].user < pre.users@[j].user);
            } else if i < ix && j == ix {
                assert(pre.users@[i].user < user);
            } else if i < ix && j > ix {
                assert(pre.users@[i].user < user);
                assert(pre.users@[j - 1].user > user);
            } else if i == ix {
                assert(pre.users@[j - 1].user > user);
            } else {
                assert(pre.users@[i - 1].user < pre.users@[j - 1].user);
            }
        }
        lemma_user_ix_unique(self, ix, user);
        assert forall|i: int| 0 <= i < self.users@.len()
            implies (#[trigger] self.users@[i]).wf(self.pending@) by {
            if i < ix {
            } else if i == ix {
            } else {
                assert(pre.users@[i - 1].wf(pre.pending@));
            }
        }
        assert forall|i: int| 0 <= i < self.pending@.len()
            implies self.tx_anchored(#[trigger] self.pending@[i]) by {
            let t = self.pending@[i];
            assert(pre.tx_anchored(t));
            let pj = pre.user_ix(t.user);
            lemma_user_ix_unique(pre, pj, t.user);
            assert(t.user != user);
            if pj < ix {
                lemma_user_ix_unique(self, pj, t.user);
            } else {
                lemma_user_ix_unique(self, pj + 1, t.user);
            }
        }
        assert forall|u2: u64| u2 != user implies #[trigger] self.has_user(u2) == pre.has_user(
            u2,
        ) by {
            if pre.has_user(u2) {
                let j = pre.user_ix(u2);
                lemma_user_ix_unique(pre, j, u2);
                if j < ix {
                    assert(self.users@[j].user == u2);
                } else {
                    assert(self.users@[j + 1].user == u2);
                }
                assert(self.has_user(u2));
            }
            if self.has_user(u2) {
                let j = self.user_ix(u2);
                lemma_user_ix_unique(self, j, u2);
                if j < ix {
                    assert(pre.users@[j].user == u2);
                } else {
                    assert(pre.users@[j - 1].user == u2);
                }
                assert(pre.has_user(u2));
            }
        }
        assert forall|u2: u64| u2 != user && pre.has_user(u2) implies #[trigger] self.user_at(u2)
            == pre.user_at(u2) by {
            let j = pre.user_ix(u2);
            lemma_user_ix_unique(pre, j, u2);
            if j < ix {
                lemma_user_ix_unique(self, j, u2);
            } else {
                lemma_user_ix_unique(self, j + 1, u2);
            }
        }
    }
}

impl VaultContract {
    /// Synchronous stake on any destination: records or grows the lien at
    /// both ends at once (the local staking path never goes through the
    /// transport), grows `total_slashable` by the floored slashable part,
    /// and enforces the collateral rule, failing with `InsufficentBalance`
    /// and no state change when it would break.
    #[verifier::rlimit(80)]
    pub fn stake(
        &mut self,
        user: u64,
        lienholder: u64,
        max_slash: SlashRatio,
        amount: u64,
    ) -> (r: Result<(), ContractError>)
        requires
            old(self).wf(),
            old(self).solvent(),
            max_slash.wf(),
        ensures
            final(self).wf(),
            final(self).solvent(),
            !old(self).has_user(user) && amount > 0 ==> r == Err::<(), ContractError>(
                ContractError::InsufficentBalance,
            ) && *final(self) == *old(self),
            !old(self).has_user(user) && amount == 0 ==> {
                &&& r == Ok::<(), ContractError>(())
                &&& same_except_user(*old(self), *final(self), user)
                &&& final(self).has_user(user)
                &&& final(self).user_at(user).collateral == 0
                &&& final(self).user_at(user).total_slashable == ValueRange(0, 0)
                &&& final(self).user_at(user).liens@ == seq![
                    (Lien { lienholder, amount: ValueRange(0, 0), slashable: max_slash }),
                ]
            },
            old(self).has_user(user) && stake_breaks_rule(
                old(self).user_at(user),
                lienholder,
                max_slash,
                amount,
            ) ==> r == Err::<(), ContractError>(ContractError::InsufficentBalance) && *final(self)
                == *old(self),
            old(self).has_user(user) && !stake_breaks_rule(
                old(self).user_at(user),
                lienholder,
                max_slash,
                amount,
            ) ==> ({
                let a0 = old(self).user_at(user);
                let inc = spec_mul_floor(amount, spec_stake_ratio(a0, lienholder, max_slash));
                &&& r == Ok::<(), ContractError>(())
                &&& same_except_user(*old(self), *final(self), user)
                &&& final(self).has_user(user)
                &&& final(self).user_at(user).collateral == a0.collateral
                &&& final(self).user_at(user).total_slashable == ValueRange(
                    (a0.total_slashable.0 + inc) as u64,
                    (a0.total_slashable.1 + inc) as u64,
                )
                &&& (if a0.has_lien(lienholder) {
                    final(self).user_at(user).liens@ == a0.liens@.update(
                        a0.lien_ix(lienholder),
                        (Lien {
                            amount: ValueRange(
                                (a0.lien_at(lienholder).amount.0 + amount) as u64,
                                (a0.lien_at(lienholder).amount.1 + amount) as u64,
                            ),
                            ..a0.lien_at(lienholder)
                        }),
                    )
                } else {
                    exists|p: int|
                        0 <= p <= a0.liens@.len() && final(self).user_at(user).liens@
                            == a0.liens@.insert(
                            p,
                            (Lien {
                                lienholder,
                                amount: ValueRange(amount, amount),
                                slashable: max_slash,
                            }),
                        )
                })
            }),
    {
        let (uix, ufound) = self.locate_user(user);
        if !ufound {
            if amount > 0 {
                return Err(ContractError::InsufficentBalance);
            }
            let ghost pre = *self;
            let mut liens: Vec<Lien> = Vec::new();
            liens.push(Lien { lienholder, amount: ValueRange(0, 0), slashable: max_slash });
            let account = UserAccount {
                user,
                collateral: 0,
                total_slashable: ValueRange(0, 0),
                liens,
            };
            self.users.insert(uix, account);
            proof {
                pre.users@.insert_ensures(uix as int, self.users@[uix as int]);
                let a = self.users@[uix as int];
                assert forall|i: int| 0 <= i < pre.pending@.len()
                    implies (w_user_slash(user))(#[trigger] pre.pending@[i]) == 0
                        && (w_pair_amount(user, lienholder))(pre.pending@[i]) == 0 by {
                    let t = pre.pending@[i];
                    assert(pre.tx_anchored(t));
                    if t.user == user {
                        assert(pre.has_user(user));
                    }
                }
                lemma_seq_sum_zero(pre.pending@, w_user_slash(user));
                lemma_seq_sum_zero(pre.pending@, w_pair_amount(user, lienholder));
                assert(a.liens@ =~= seq![
                    (Lien { lienholder, amount: ValueRange(0, 0), slashable: max_slash }),
                ]);
                assert(a.wf(pre.pending@));
                self.lemma_insert_user_frame(pre, uix as int, user);
                assert(a.liens@.drop_last() =~= Seq::<Lien>::empty());
                assert(max_lien_hi(Seq::<Lien>::empty()) == 0);
                assert(a.liens@.len() == 1);
                assert(max_lien_hi(a.liens@) == 0);
                assert(a.solvent());
            }
            return Ok(());
        }
        let collateral = self.users[uix].collateral;
        let (lix, lfound) = locate_lien(&self.users[uix].liens, lienholder);
        let ratio = if lfound {
            self.users[uix].liens[lix].slashable
        } else {
            max_slash
        };
        proof {
            if lfound {
                lemma_lien_at_ix(self.users@[uix as int], lix as int);
            } else {
                if self.users@[uix as int].has_lien(lienholder) {
                    let w = self.users@[uix as int].lien_ix(lienholder);
                    assert(self.users@[uix as int].liens@[w].lienholder != lienholder);
                }
            }
            assert(ratio.wf());
        }
        let inc = mul_floor(amount, ratio);
        let old_lien_lo = if lfound {
            self.users[uix].liens[lix].amount.0
        } else {
            0
        };
        let old_lien_hi = if lfound {
            self.users[uix].liens[lix].amount.1
        } else {
            0
        };
        let cur_max = Self::max_lien_hi_of(&self.users[uix].liens);
        let new_hi128 = old_lien_hi as u128 + amount as u128;
        let cand = if (cur_max as u128) > new_hi128 {
            cur_max as u128
        } else {
            new_hi128
        };
        let ts = self.users[uix].total_slashable;
        if cand > collateral as u128 || ts.1 as u128 + inc as u128 > collateral as u128 {
            return Err(ContractError::InsufficentBalance);
        }
        let ghost pre = *self;
        let ghost a0 = pre.users@[uix as int];
        proof {
            lemma_user_ix_unique(pre, uix as int, user);
            assert(!stake_breaks_rule(a0, lienholder, max_slash, amount));
        }
        let mut account = self.users.remove(uix);
        if lfound {
            let mut lien = account.liens.remove(lix);
            lien.amount.0 = lien.amount.0 + amount;
            lien.amount.1 = lien.amount.1 + amount;
            account.liens.insert(lix, lien);
            proof {
                assert(account.liens@ =~= a0.liens@.update(lix as int, account.liens@[lix as int]));
            }
        } else {
            account.liens.insert(lix, Lien {
                lienholder,
                amount: ValueRange(amount, amount),
                slashable: max_slash,
            });
        }
        account.total_slashable.0 = account.total_slashable.0 + inc;
        account.total_slashable.1 = account.total_slashable.1 + inc;
        self.users.insert(uix, account);
        proof {
            assert(self.users@ =~= pre.users@.update(uix as int, self.users@[uix as int]));
            let a = self.users@[uix as int];
            lemma_mul_floor_bounds(amount, ratio);
            if lfound {
                // table keeps its shape; only the one lien grew at both ends
                assert forall|i: int, j: int| 0 <= i < j < a.liens@.len()
                    implies (#[trigger] a.liens@[i]).lienholder
                        < (#[trigger] a.liens@[j]).lienholder by {
                    assert(a0.liens@[i].lienholder < a0.liens@[j].lienholder);
                }
                assert forall|k: int| 0 <= k < a.liens@.len()
                    implies lien_wf(#[trigger] a.liens@[k], pre.pending@, user) by {
                    assert(lien_wf(a0.liens@[k], pre.pending@, user));
                }
                assert(a.wf(pre.pending@));
                assert forall|k: int| 0 <= k < a0.liens@.len()
                    implies (#[trigger] a.liens@[k]).lienholder == a0.liens@[k].lienholder
                        && a.liens@[k].slashable == a0.liens@[k].slashable by {
                }
                lemma_liens_cover_pointwise(a.liens@, a0.liens@);
                self.lemma_update_user_frame(pre, uix as int, user);
                assert forall|k: int| 0 <= k < a.liens@.len()
                    implies (#[trigger] a.liens@[k]).amount.1 <= a.collateral by {
                    if k != lix as int {
                        lemma_max_hi_ge(a0.liens@, k);
                    }
                }
                lemma_max_hi_le(a.liens@, a.collateral as int);
                assert(a.solvent());
            } else {
                a0.liens@.insert_ensures(
                    lix as int,
                    (Lien { lienholder, amount: ValueRange(amount, amount), slashable: max_slash }),
                );
                assert forall|i: int, j: int| 0 <= i < j < a.liens@.len()
                    implies (#[trigger] a.liens@[i]).lienholder
                        < (#[trigger] a.liens@[j]).lienholder by {
                    if j < lix as int {
                        assert(a0.liens@[i].lienholder < a0.liens@[j].lienholder);
                    } else if j == lix as int {
                        assert(a0.liens@[i].lienholder < lienholder);
                    } else if i < lix as int {
                        assert(a0.liens@[j - 1].lienholder > lienholder);
                        assert(a0.liens@[i].lienholder < lienholder);
                    } else if i == lix as int {
                        assert(a0.liens@[j - 1].lienholder > lienholder);
                    } else {
                        assert(a0.liens@[i - 1].lienholder < a0.liens@[j - 1].lienholder);
                    }
                }
                assert forall|i: int| 0 <= i < pre.pending@.len()
                    implies (w_pair_amount(user, lienholder))(#[trigger] pre.pending@[i])
                        == 0 by {
                    let t = pre.pending@[i];
                    assert(pre.tx_anchored(t));
                    if t.user == user && t.lienholder == lienholder && t.ty == TxType::Stake {
                        let w = choose|w: int|
                            0 <= w < pre.user_at(user).liens@.len()
                                && (#[trigger] pre.user_at(user).liens@[w]).lienholder
                                    == t.lienholder
                                && pre.user_at(user).liens@[w].slashable == t.slashable;
                        assert(a0.liens@[w].lienholder == lienholder);
                        assert(a0.has_lien(lienholder));
                        assert(false);
                    }
                }
                lemma_seq_sum_zero(pre.pending@, w_pair_amount(user, lienholder));
                assert forall|k: int| 0 <= k < a.liens@.len()
                    implies lien_wf(#[trigger] a.liens@[k], pre.pending@, user) by {
                    if k < lix as int {
                        assert(lien_wf(a0.liens@[k], pre.pending@, user));
                    } else if k > lix as int {
                        assert(lien_wf(a0.liens@[k - 1], pre.pending@, user));
                    }
                }
                assert(a.wf(pre.pending@));
                assert forall|li: int| 0 <= li < a0.liens@.len() implies has_lien_entry(
                    a.liens@,
                    (#[trigger] a0.liens@[li]).lienholder,
                    a0.liens@[li].slashable,
                ) by {
                    if li < lix as int {
                        assert(0 <= li < a.liens@.len() && a.liens@[li].lienholder
                            == a0.liens@[li].lienholder && a.liens@[li].slashable
                            == a0.liens@[li].slashable);
                    } else {
                        assert(0 <= li + 1 < a.liens@.len() && a.liens@[li + 1].lienholder
                            == a0.liens@[li].lienholder && a.liens@[li + 1].slashable
                            == a0.liens@[li].slashable);
                    }
                }
                self.lemma_update_user_frame(pre, uix as int, user);
                assert forall|k: int| 0 <= k < a.liens@.len()
                    implies (#[trigger] a.liens@[k]).amount.1 <= a.collateral by {
                    if k < lix as int {
                        lemma_max_hi_ge(a0.liens@, k);
                    } else if k > lix as int {
                        lemma_max_hi_ge(a0.liens@, k - 1);
                    }
                }
                lemma_max_hi_le(a.liens@, a.collateral as int);
                assert(a.solvent());
            }
        }
        Ok(())
    }

    /// Sends a local stake through the local staking collaborator: a
    /// synchronous stake on its address with its maximum slashing fraction.
    /// The caller forwards the tokens; this records the lien.
    pub fn stake_local(&mut self, user: u64, amount: u64, denom: u64) -> (r: Result<
        (),
        ContractError,
    >)
        requires
            old(self).wf(),
            old(self).solvent(),
            old(self).local_staking matches Some(ls) && ls.max_slash.wf(),
        ensures
            final(self).wf(),
            final(self).solvent(),
            denom != old(self).config.denom ==> r == Err::<(), ContractError>(
                ContractError::UnexpectedDenom(old(self).config.denom),
            ) && *final(self) == *old(self),
            denom == old(self).config.denom && !old(self).has_user(user) && amount > 0 ==> r
                == Err::<(), ContractError>(ContractError::InsufficentBalance) && *final(self)
                == *old(self),
            denom == old(self).config.denom && !old(self).has_user(user) && amount == 0 ==> ({
                let ls = old(self).local_staking->Some_0;
                &&& r == Ok::<(), ContractError>(())
                &&& same_except_user(*old(self), *final(self), user)
                &&& final(self).has_user(user)
                &&& final(self).user_at(user).collateral == 0
                &&& final(self).user_at(user).total_slashable == ValueRange(0, 0)
                &&& final(self).user_at(user).liens@ == seq![
                    (Lien {
                        lienholder: ls.contract,
                        amount: ValueRange(0, 0),
                        slashable: ls.max_slash,
                    }),
                ]
            }),
            denom == old(self).config.denom && old(self).has_user(user) && stake_breaks_rule(
                old(self).user_at(user),
                old(self).local_staking->Some_0.contract,
                old(self).local_staking->Some_0.max_slash,
                amount,
            ) ==> r == Err::<(), ContractError>(ContractError::InsufficentBalance) && *final(self)
                == *old(self),
            denom == old(self).config.denom && old(self).has_user(user) && !stake_breaks_rule(
                old(self).user_at(user),
                old(self).local_staking->Some_0.contract,
                old(self).local_staking->Some_0.max_slash,
                amount,
            ) ==> ({
                let ls = old(self).local_staking->Some_0;
                let a0 = old(self).user_at(user);
                let inc = spec_mul_floor(amount, spec_stake_ratio(a0, ls.contract, ls.max_slash));
                &&& r == Ok::<(), ContractError>(())
                &&& same_except_user(*old(self), *final(self), user)
                &&& final(self).has_user(user)
                &&& final(self).user_at(user).collateral == a0.collateral
                &&& final(self).user_at(user).total_slashable == ValueRange(
                    (a0.total_slashable.0 + inc) as u64,
                    (a0.total_slashable.1 + inc) as u64,
                )
                &&& (if a0.has_lien(ls.contract) {
                    final(self).user_at(user).liens@ == a0.liens@.update(
                        a0.lien_ix(ls.contract),
                        (Lien {
                            amount: ValueRange(
                                (a0.lien_at(ls.contract).amount.0 + amount) as u64,
                                (a0.lien_at(ls.contract).amount.1 + amount) as u64,
                            ),
                            ..a0.lien_at(ls.contract)
                        }),
                    )
                } else {
                    exists|p: int|
                        0 <= p <= a0.liens@.len() && final(self).user_at(user).liens@
                            == a0.liens@.insert(
                            p,
                            (Lien {
                                lienholder: ls.contract,
                                amount: ValueRange(amount, amount),
                                slashable: ls.max_slash,
                            }),
                        )
                })
            }),
    {
        if denom != self.config.denom {
            return Err(ContractError::UnexpectedDenom(self.config.denom));
        }
        let (contract, max_slash) = match &self.local_staking {
            Some(ls) => (ls.contract, ls.max_slash),
            None => {
                return Err(ContractError::NoInstantiateData);
            }
        };
        self.stake(user, contract, max_slash, amount)
    }
}

/// In a sorted journal an id determines its row: the `choose` behind
/// `tx_ix` lands on any index that holds the id.
pub proof fn lemma_tx_ix_unique(v: VaultContract, k: int, tx_id: u64)
    requires
        v.txs_sorted(),
        0 <= k < v.pending@.len(),
        v.pending@[k].id == tx_id,
    ensures
        v.has_tx(tx_id),
        v.tx_ix(tx_id) == k,
        v.tx_at(tx_id) == v.pending@[k],
{
    assert(v.has_tx(tx_id));
    let j = v.tx_ix(tx_id);
    if j < k {
        assert(v.pending@[j].id < v.pending@[k].id);
    } else if k < j {
        assert(v.pending@[k].id < v.pending@[j].id);
    }
}

/// Law: any single pending transaction of a well-formed, solvent vault can
/// roll back — the reservations it holds really are present on the
/// optimistic ends of its lien and of the user's slashable total, and
/// withdrawing them leaves the collateral rule satisfied against the same
/// collateral.
pub proof fn lemma_pending_rollback_solvent(v: VaultContract, tx_id: u64)
    requires
        v.wf(),
        v.solvent(),
        v.has_tx(tx_id),
    ensures
        ({
            let t = v.tx_at(tx_id);
            let a = v.user_at(t.user);
            let l = a.lien_at(t.lienholder);
            &&& v.has_user(t.user)
            &&& a.has_lien(t.lienholder)
            &&& l.amount.0 <= l.amount.1 - t.amount
            &&& a.total_slashable.0 <= a.total_slashable.1 - spec_mul_floor(t.amount, t.slashable)
            &&& a.total_slashable.1 - spec_mul_floor(t.amount, t.slashable) <= a.collateral
            &&& max_lien_hi(a.liens@) <= a.collateral
        }),
{
    let k = v.tx_ix(tx_id);
    let t = v.tx_at(tx_id);
    assert(v.tx_anchored(v.pending@[k]));
    let uix = v.user_ix(t.user);
    lemma_user_ix_unique(v, uix, t.user);
    let a = v.user_at(t.user);
    let w = choose|w: int|
        0 <= w < a.liens@.len() && (#[trigger] a.liens@[w]).lienholder == t.lienholder
            && a.liens@[w].slashable == t.slashable;
    lemma_lien_at_ix(a, w);
    assert(lien_wf(a.liens@[w], v.pending@, t.user));
    lemma_seq_sum_ge_elem(v.pending@, k, w_pair_amount(t.user, t.lienholder));
    assert forall|i: int| 0 <= i < v.pending@.len() implies 0 <= (w_user_slash(t.user))(
        #[trigger] v.pending@[i],
    ) by {
        assert(v.tx_anchored(v.pending@[i]));
        lemma_mul_floor_bounds(v.pending@[i].amount, v.pending@[i].slashable);
    }
    lemma_seq_sum_ge_elem(v.pending@, k, w_user_slash(t.user));
}

/// Law: in every well-formed vault state, every optimistic range is valid —
/// the pessimistic end of each lien and of each user's slashable total
/// never exceeds the optimistic one.
pub proof fn lemma_ranges_valid(v: VaultContract)
    requires
        v.wf(),
    ensures
        forall|u: int, l: int|
            0 <= u < v.users@.len() && 0 <= l < (#[trigger] v.users@[u]).liens@.len()
                ==> (#[trigger] v.users@[u].liens@[l]).amount.wf(),
        forall|u: int| 0 <= u < v.users@.len() ==> (#[trigger] v.users@[u]).total_slashable.wf(),
{
    assert forall|u: int, l: int|
        0 <= u < v.users@.len() && 0 <= l < (#[trigger] v.users@[u]).liens@.len()
        implies (#[trigger] v.users@[u].liens@[l]).amount.wf() by {
        assert(v.users@[u].wf(v.pending@));
        assert(lien_wf(v.users@[u].liens@[l], v.pending@, v.users@[u].user));
    }
}

/// Law: in every well-formed, solvent vault state the collateral rule
/// holds for every user — neither the largest lien nor the slashable
/// total exceeds the bonded collateral, even if every in-flight operation
/// commits.
pub proof fn lemma_collateral_rule(v: VaultContract, user: u64)
    requires
        v.wf(),
        v.solvent(),
        v.has_user(user),
    ensures
        max_lien_hi(v.user_at(user).liens@) <= v.user_at(user).collateral,
        v.user_at(user).total_slashable.1 <= v.user_at(user).collateral,
        forall|l: int|
            0 <= l < v.user_at(user).liens@.len()
                ==> (#[trigger] v.user_at(user).liens@[l]).amount.1 <= v.user_at(user).collateral,
{
    let ix = v.user_ix(user);
    lemma_user_ix_unique(v, ix, user);
    assert(v.users@[ix].solvent());
    assert forall|l: int| 0 <= l < v.user_at(user).liens@.len()
        implies (#[trigger] v.user_at(user).liens@[l]).amount.1 <= v.user_at(user).collateral by {
        lemma_max_hi_ge(v.user_at(user).liens@, l);
    }
}

/// Law: the journal holds exactly one row per prepared-but-unresolved
/// operation — no id appears twice, so committing or rolling back one
/// transaction touches exactly one row.
pub proof fn lemma_journal_rows_distinct(v: VaultContract)
    requires
        v.wf(),
    ensures
        forall|i: int, j: int|
            0 <= i < j < v.pending@.len() ==> (#[trigger] v.pending@[i]).id
                != (#[trigger] v.pending@[j]).id,
{
}

/// Law: reserving a cross-chain stake on a lien and then withdrawing the
/// reservation returns the lien table bitwise to its original value.
pub proof fn lemma_remote_stake_rollback_restores(a: UserAccount, lienholder: u64, amount: u64)
    requires
        a.liens_sorted(),
        a.has_lien(lienholder),
        a.lien_at(lienholder).amount.1 + amount <= u64::MAX,
    ensures
        ({
            let ix = a.lien_ix(lienholder);
            let l = a.lien_at(lienholder);
            let prepared = (Lien {
                amount: spec_prepare_add(l.amount, amount),
                ..l
            });
            let rolled = (Lien {
                amount: spec_rollback_add(prepared.amount, amount),
                ..prepared
            });
            a.liens@.update(ix, prepared).update(ix, rolled) == a.liens@
        }),
{
    let ix = a.lien_ix(lienholder);
    let l = a.lien_at(lienholder);
    let prepared = Lien { amount: spec_prepare_add(l.amount, amount), ..l };
    let rolled = Lien { amount: spec_rollback_add(prepared.amount, amount), ..prepared };
    assert(rolled == l);
    assert(a.liens@.update(ix, prepared).update(ix, rolled) =~= a.liens@);
}

/// Appending another user's transaction leaves an account well formed: none
/// of its journal sums change.
pub proof fn lemma_wf_push_other(a: UserAccount, txs: Seq<Tx>, t: Tx)
    requires
        a.wf(txs),
        t.user != a.user,
    ensures
        a.wf(txs.push(t)),
{
    lemma_seq_sum_push(txs, w_user_slash(a.user), t);
    assert forall|i: int| 0 <= i < a.liens@.len()
        implies lien_wf(#[trigger] a.liens@[i], txs.push(t), a.user) by {
        lemma_seq_sum_push(txs, w_pair_amount(a.user, a.liens@[i].lienholder), t);
        assert(lien_wf(a.liens@[i], txs, a.user));
    }
}

/// Removing another user's transaction leaves an account well formed.
pub proof fn lemma_wf_remove_other(a: UserAccount, txs: Seq<Tx>, k: int)
    requires
        a.wf(txs),
        0 <= k < txs.len(),
        txs[k].user != a.user,
    ensures
        a.wf(txs.remove(k)),
{
    lemma_seq_sum_remove(txs, k, w_user_slash(a.user));
    assert forall|i: int| 0 <= i < a.liens@.len()
        implies lien_wf(#[trigger] a.liens@[i], txs.remove(k), a.user) by {
        lemma_seq_sum_remove(txs, k, w_pair_amount(a.user, a.liens@[i].lienholder));
        assert(lien_wf(a.liens@[i], txs, a.user));
    }
}

impl VaultContract {
    /// After updating the account at `ix` and appending a fresh journal row
    /// of that user, the vault is still well formed and every other account
    /// is unchanged.
    proof fn lemma_push_tx_frame(self, pre: VaultContract, ix: int, user: u64, t: Tx)
        requires
            pre.wf(),
            0 <= ix < pre.users@.len(),
            pre.users@[ix].user == user,
            self.users@ == pre.users@.update(ix, self.users@[ix]),
            self.users@[ix].user == user,
            self.pending@ == pre.pending@.push(t),
            self.tx_count == pre.tx_count + 1,
            t.id == self.tx_count,
            t.ty == TxType::Stake,
            t.user == user,
            t.slashable.wf(),
            has_lien_entry(self.users@[ix].liens@, t.lienholder, t.slashable),
            liens_cover(self.users@[ix].liens@, pre.users@[ix].liens@),
            self.users@[ix].wf(self.pending@),
            self.config == pre.config,
            self.local_staking == pre.local_staking,
        ensures
            self.wf(),
            accounts_same_except(pre, self, user),
            self.has_user(user),
            self.user_at(user) == self.users@[ix],
            forall|i: int|
                0 <= i < pre.users@.len() && i != ix
                    ==> (#[trigger] pre.users@[i]).solvent() ==> self.users@[i].solvent(),
    {
        assert forall|i: int, j: int| 0 <= i < j < self.users@.len()
            implies (#[trigger] self.users@[i]).user < (#[trigger] self.users@[j]).user by {
            assert(pre.users@[i].user < pre.users@[j].user);
        }
        lemma_user_ix_unique(self, ix, user);
        assert forall|i: int, j: int| 0 <= i < j < self.pending@.len()
            implies (#[trigger] self.pending@[i]).id < (#[trigger] self.pending@[j]).id by {
            if j < self.pending@.len() - 1 {
                assert(pre.pending@[i].id < pre.pending@[j].id);
            } else {
                assert(pre.pending@[i].id <= pre.tx_count);
            }
        }
        assert forall|i: int| 0 <= i < self.users@.len()
            implies (#[trigger] self.users@[i]).wf(self.pending@) by {
            if i != ix {
                assert(pre.users@[i].wf(pre.pending@));
                lemma_wf_push_other(pre.users@[i], pre.pending@, t);
            }
        }
        assert forall|i: int| 0 <= i < self.pending@.len()
            implies self.tx_anchored(#[trigger] self.pending@[i]) by {
            if i < self.pending@.len() - 1 {
                let t2 = self.pending@[i];
                assert(t2 == pre.pending@[i]);
                assert(pre.tx_anchored(t2));
                let pj = pre.user_ix(t2.user);
                lemma_user_ix_unique(pre, pj, t2.user);
                if t2.user == user {
                    lemma_user_ix_unique(pre, ix, user);
                    assert(pj == ix);
                    let li = choose|li: int|
                        0 <= li < pre.users@[ix].liens@.len()
                            && (#[trigger] pre.users@[ix].liens@[li]).lienholder == t2.lienholder
                            && pre.users@[ix].liens@[li].slashable == t2.slashable;
                    assert(has_lien_entry(
                        self.users@[ix].liens@,
                        pre.users@[ix].liens@[li].lienholder,
                        pre.users@[ix].liens@[li].slashable,
                    ));
                } else {
                    assert(self.users@[pj] == pre.users@[pj]);
                    lemma_user_ix_unique(self, pj, t2.user);
                }
            } else {
                assert(self.pending@[i] == t);
            }
        }
        assert forall|u2: u64| u2 != user implies #[trigger] self.has_user(u2) == pre.has_user(
            u2,
        ) by {
            if pre.has_user(u2) {
                let j = pre.user_ix(u2);
                lemma_user_ix_unique(pre, j, u2);
                assert(self.users@[j].user == u2);
            }
            if self.has_user(u2) {
                let j = self.user_ix(u2);
                lemma_user_ix_unique(self, j, u2);
                assert(j != ix);
                assert(pre.users@[j].user == u2);
            }
        }
        assert forall|u2: u64| u2 != user && pre.has_user(u2) implies #[trigger] self.user_at(u2)
            == pre.user_at(u2) by {
            let j = pre.user_ix(u2);
            lemma_user_ix_unique(pre, j, u2);
            assert(j != ix);
            lemma_user_ix_unique(self, j, u2);
        }
    }

    /// After updating the account at `ix` and removing the journal row at
    /// `k` (a row of that same user), the vault is still well formed and
    /// every other account is unchanged.
    proof fn lemma_remove_tx_frame(self, pre: VaultContract, ix: int, user: u64, k: int)
        requires
            pre.wf(),
            0 <= ix < pre.users@.len(),
            pre.users@[ix].user == user,
            0 <= k < pre.pending@.len(),
            pre.pending@[k].user == user,
            self.users@ == pre.users@.update(ix, self.users@[ix]),
            self.users@[ix].user == user,
            self.pending@ == pre.pending@.remove(k),
            self.tx_count == pre.tx_count,
            liens_cover(self.users@[ix].liens@, pre.users@[ix].liens@),
            self.users@[ix].wf(self.pending@),
            self.config == pre.config,
            self.local_staking == pre.local_staking,
        ensures
            self.wf(),
            accounts_same_except(pre, self, user),
            self.has_user(user),
            self.user_at(user) == self.users@[ix],
            forall|i: int|
                0 <= i < pre.users@.len() && i != ix
                    ==> (#[trigger] pre.users@[i]).solvent() ==> self.users@[i].solvent(),
    {
        pre.pending@.remove_ensures(k);
        assert forall|i: int, j: int| 0 <= i < j < self.users@.len()
            implies (#[trigger] self.users@[i]).user < (#[trigger] self.users@[j]).user by {
            assert(pre.users@[i].user < pre.users@[j].user);
        }
        lemma_user_ix_unique(self, ix, user);
        assert forall|i: int, j: int| 0 <= i < j < self.pending@.len()
            implies (#[trigger] self.pending@[i]).id < (#[trigger] self.pending@[j]).id by {
            let pi = if i < k {
                i
            } else {
                i + 1
            };
            let pj = if j < k {
                j
            } else {
                j + 1
            };
            assert(pre.pending@[pi].id < pre.pending@[pj].id);
        }
        assert forall|i: int| 0 <= i < self.pending@.len()
            implies (#[trigger] self.pending@[i]).id <= self.tx_count by {
            let pi = if i < k {
                i
            } else {
                i + 1
            };
            assert(self.pending@[i] == pre.pending@[pi]);
        }
        assert forall|i: int| 0 <= i < self.users@.len()
            implies (#[trigger] self.users@[i]).wf(self.pending@) by {
            if i != ix {
                assert(pre.users@[i].wf(pre.pending@));
                lemma_wf_remove_other(pre.users@[i], pre.pending@, k);
            }
        }
        assert forall|i: int| 0 <= i < self.pending@.len()
            implies self.tx_anchored(#[trigger] self.pending@[i]) by {
            let pi = if i < k {
                i
            } else {
                i + 1
            };
            let t2 = self.pending@[i];
            assert(t2 == pre.pending@[pi]);
            assert(pre.tx_anchored(t2));
            let pj = pre.user_ix(t2.user);
            lemma_user_ix_unique(pre, pj, t2.user);
            if t2.user == user {
                lemma_user_ix_unique(pre, ix, user);
                assert(pj == ix);
                lemma_user_ix_unique(self, ix, user);
                let li = choose|li: int|
                    0 <= li < pre.users@[ix].liens@.len()
                        && (#[trigger] pre.users@[ix].liens@[li]).lienholder == t2.lienholder
                        && pre.users@[ix].liens@[li].slashable == t2.slashable;
                assert(has_lien_entry(
                    self.users@[ix].liens@,
                    pre.users@[ix].liens@[li].lienholder,
                    pre.users@[ix].liens@[li].slashable,
                ));
            } else {
                assert(self.users@[pj] == pre.users@[pj]);
                lemma_user_ix_unique(self, pj, t2.user);
            }
        }
        assert forall|u2: u64| u2 != user implies #[trigger] self.has_user(u2) == pre.has_user(
            u2,
        ) by {
            if pre.has_user(u2) {
                let j = pre.user_ix(u2);
                lemma_user_ix_unique(pre, j, u2);
                assert(self.users@[j].user == u2);
            }
            if self.has_user(u2) {
                let j = self.user_ix(u2);
                lemma_user_ix_unique(self, j, u2);
                assert(j != ix);
                assert(pre.users@[j].user == u2);
            }
        }
        assert forall|u2: u64| u2 != user && pre.has_user(u2) implies #[trigger] self.user_at(u2)
            == pre.user_at(u2) by {
            let j = pre.user_ix(u2);
            lemma_user_ix_unique(pre, j, u2);
            assert(j != ix);
            lemma_user_ix_unique(self, j, u2);
        }
    }

    /// Opens a cross-chain stake: reserves the optimistic end of the lien
    /// and of `total_slashable`, enforces the collateral rule against the
    /// whole of the user's outstanding stakes, and journals a transaction
    /// under a fresh id, which the destination later commits or rolls back.
    #[verifier::rlimit(100)]
    pub fn stake_remote(
        &mut self,
        user: u64,
        lienholder: u64,
        max_slash: SlashRatio,
        amount: u64,
        denom: u64,
    ) -> (r: Result<u64, ContractError>)
        requires
            old(self).wf(),
            old(self).solvent(),
            max_slash.wf(),
            old(self).tx_count < u64::MAX,
        ensures
            final(self).wf(),
            final(self).solvent(),
            denom != old(self).config.denom ==> r == Err::<u64, ContractError>(
                ContractError::UnexpectedDenom(old(self).config.denom),
            ) && *final(self) == *old(self),
            denom == old(self).config.denom && !old(self).has_user(user) ==> r == Err::<
                u64,
                ContractError,
            >(ContractError::InsufficentBalance) && *final(self) == *old(self),
            denom == old(self).config.denom && old(self).has_user(user)
                && remote_stake_breaks_rule(
                old(self).user_at(user),
                old(self).pending@,
                lienholder,
                max_slash,
                amount,
            ) ==> r == Err::<u64, ContractError>(ContractError::InsufficentBalance) && *final(self)
                == *old(self),
            denom == old(self).config.denom && old(self).has_user(user)
                && !remote_stake_breaks_rule(
                old(self).user_at(user),
                old(self).pending@,
                lienholder,
                max_slash,
                amount,
            ) ==> ({
                let a0 = old(self).user_at(user);
                let r_used = spec_stake_ratio(a0, lienholder, max_slash);
                let inc = spec_mul_floor(amount, r_used);
                let tid = (old(self).tx_count + 1) as u64;
                &&& r == Ok::<u64, ContractError>(tid)
                &&& final(self).tx_count == tid
                &&& final(self).pending@ == old(self).pending@.push(
                    (Tx {
                        id: tid,
                        ty: TxType::Stake,
                        amount,
                        slashable: r_used,
                        user,
                        lienholder,
                    }),
                )
                &&& accounts_same_except(*old(self), *final(self), user)
                &&& final(self).has_user(user)
                &&& final(self).user_at(user).collateral == a0.collateral
                &&& final(self).user_at(user).total_slashable == ValueRange(
                    a0.total_slashable.0,
                    (a0.total_slashable.1 + inc) as u64,
                )
                &&& (if a0.has_lien(lienholder) {
                    final(self).user_at(user).liens@ == a0.liens@.update(
                        a0.lien_ix(lienholder),
                        (Lien {
                            amount: ValueRange(
                                a0.lien_at(lienholder).amount.0,
                                (a0.lien_at(lienholder).amount.1 + amount) as u64,
                            ),
                            ..a0.lien_at(lienholder)
                        }),
                    )
                } else {
                    exists|p: int|
                        0 <= p <= a0.liens@.len() && final(self).user_at(user).liens@
                            == a0.liens@.insert(
                            p,
                            (Lien {
                                lienholder,
                                amount: ValueRange(0, amount),
                                slashable: max_slash,
                            }),
                        )
                })
            }),

    {
        if denom != self.config.denom {
            return Err(ContractError::UnexpectedDenom(self.config.denom));
        }
        let (uix, ufound) = self.locate_user(user);
        if !ufound {
            return Err(ContractError::InsufficentBalance);
        }
        let ghost mid = *self;
        proof {
            lemma_user_ix_unique(mid, uix as int, user);
        }
        let collateral = self.users[uix].collateral;
        let (lix, lfound) = locate_lien(&self.users[uix].liens, lienholder);
        let ratio = if lfound {
            self.users[uix].liens[lix].slashable
        } else {
            max_slash
        };
        proof {
            if lfound {
                lemma_lien_at_ix(mid.users@[uix as int], lix as int);
            } else {
                if mid.users@[uix as int].has_lien(lienholder) {
                    let w = mid.users@[uix as int].lien_ix(lienholder);
                    assert(mid.users@[uix as int].liens@[w].lienholder != lienholder);
                }
            }
            assert(ratio.wf());
        }
        let pcount = self.pending.len();
        let psum = self.pending_user_amount(user);
        proof {
            assert(mid.pending@.len() == pcount);
            lemma_seq_sum_bound(mid.pending@, w_user_amount(user), u64::MAX as int);
            assert(mid.pending@.len() * (u64::MAX as int) + (u64::MAX as int)
                < 0x1_0000_0000_0000_0000_0000_0000_0000_0000int) by (nonlinear_arith)
                requires
                    mid.pending@.len() <= u64::MAX as int,
            {
            }
        }
        let pend128 = amount as u128 + psum;
        let lien_lo = if lfound {
            self.users[uix].liens[lix].amount.0
        } else {
            0
        };
        let cur_max = Self::max_lien_hi_of(&self.users[uix].liens);
        let ts = self.users[uix].total_slashable;
        if pend128 > u64::MAX as u128 {
            return Err(ContractError::InsufficentBalance);
        }
        let pend = pend128 as u64;
        let pinc = mul_floor(pend, ratio);
        let hypo = lien_lo as u128 + pend as u128;
        let cand = if (cur_max as u128) > hypo {
            cur_max as u128
        } else {
            hypo
        };
        if cand >= collateral as u128 || ts.1 as u128 + pinc as u128 > collateral as u128 {
            return Err(ContractError::InsufficentBalance);
        }
        let inc = mul_floor(amount, ratio);
        proof {
            lemma_mul_floor_int_monotonic(amount as int, pend as int, ratio);
            lemma_mul_floor_bounds(amount, ratio);
            if lfound {
                lemma_max_hi_ge(mid.users@[uix as int].liens@, lix as int);
                assert(lien_wf(mid.users@[uix as int].liens@[lix as int], mid.pending@, user));
                let w1 = w_pair_amount(user, lienholder);
                let w2 = w_user_amount(user);
                assert forall|i: int| 0 <= i < mid.pending@.len() implies w1(
                    #[trigger] mid.pending@[i],
                ) <= w2(mid.pending@[i]) by {
                }
                lemma_seq_sum_le(mid.pending@, w1, w2);
            } else {
                lemma_max_lo_le_hi(mid.users@[uix as int].liens@);
            }
        }
        let tx_id = self.next_tx_id();
        let new_tx = Tx {
            id: tx_id,
            ty: TxType::Stake,
            amount,
            slashable: ratio,
            user,
            lienholder,
        };
        self.pending.push(new_tx);
        let ghost a0 = mid.users@[uix as int];
        let mut account = self.users.remove(uix);
        if lfound {
            let mut lien = account.liens.remove(lix);
            lien.amount.1 = lien.amount.1 + amount;
            account.liens.insert(lix, lien);
            proof {
                assert(account.liens@ =~= a0.liens@.update(lix as int, account.liens@[lix as int]));
            }
        } else {
            account.liens.insert(lix, Lien {
                lienholder,
                amount: ValueRange(0, amount),
                slashable: max_slash,
            });
        }
        account.total_slashable.1 = account.total_slashable.1 + inc;
        self.users.insert(uix, account);
        proof {
            assert(self.users@ =~= mid.users@.update(uix as int, self.users@[uix as int]));
            self.lemma_stake_remote_apply(
                mid,
                uix as int,
                lix as int,
                user,
                lienholder,
                max_slash,
                ratio,
                amount,
                new_tx,
                lfound,
            );
            if lfound {
                lemma_lien_at_ix(a0, lix as int);
            }
        }
        Ok(tx_id)
    }

    /// The heavy lifting of `stake_remote`'s success path: with the
    /// conservative collateral check passed and the reservation written,
    /// the vault is well formed and solvent again and only this one account
    /// and the journal changed.
    #[verifier::rlimit(100)]
    proof fn lemma_stake_remote_apply(
        self,
        mid: VaultContract,
        uix: int,
        lix: int,
        user: u64,
        lienholder: u64,
        max_slash: SlashRatio,
        ratio: SlashRatio,
        amount: u64,
        new_tx: Tx,
        lfound: bool,
    )
        requires
            mid.wf(),
            mid.solvent(),
            0 <= uix < mid.users@.len(),
            mid.users@[uix].user == user,
            0 <= lix <= mid.users@[uix].liens@.len(),
            lfound ==> lix < mid.users@[uix].liens@.len()
                && mid.users@[uix].liens@[lix].lienholder == lienholder
                && ratio == mid.users@[uix].liens@[lix].slashable,
            !lfound ==> ratio == max_slash,
            !lfound ==> forall|i: int|
                0 <= i < mid.users@[uix].liens@.len()
                    ==> (#[trigger] mid.users@[uix].liens@[i]).lienholder != lienholder,
            forall|i: int|
                0 <= i < lix ==> (#[trigger] mid.users@[uix].liens@[i]).lienholder < lienholder,
            !lfound && lix < mid.users@[uix].liens@.len()
                ==> mid.users@[uix].liens@[lix].lienholder > lienholder,
            ratio.wf(),
            max_slash.wf(),
            (if lfound {
                mid.users@[uix].liens@[lix].amount.1 as int
            } else {
                0
            }) + amount <= mid.users@[uix].collateral,
            mid.users@[uix].total_slashable.1 + spec_mul_floor(amount, ratio)
                <= mid.users@[uix].collateral,
            new_tx.id == self.tx_count,
            self.tx_count == mid.tx_count + 1,
            new_tx.ty == TxType::Stake,
            new_tx.user == user,
            new_tx.lienholder == lienholder,
            new_tx.slashable == ratio,
            new_tx.amount == amount,
            self.pending@ == mid.pending@.push(new_tx),
            self.users@ == mid.users@.update(uix, self.users@[uix]),
            self.config == mid.config,
            self.local_staking == mid.local_staking,
            self.users@[uix].user == user,
            self.users@[uix].collateral == mid.users@[uix].collateral,
            self.users@[uix].total_slashable == ValueRange(
                mid.users@[uix].total_slashable.0,
                (mid.users@[uix].total_slashable.1 + spec_mul_floor(amount, ratio)) as u64,
            ),
            lfound ==> self.users@[uix].liens@ == mid.users@[uix].liens@.update(
                lix,
                (Lien {
                    amount: ValueRange(
                        mid.users@[uix].liens@[lix].amount.0,
                        (mid.users@[uix].liens@[lix].amount.1 + amount) as u64,
                    ),
                    ..mid.users@[uix].liens@[lix]
                }),
            ),
            !lfound ==> self.users@[uix].liens@ == mid.users@[uix].liens@.insert(
                lix,
                (Lien { lienholder, amount: ValueRange(0, amount), slashable: max_slash }),
            ),
        ensures
            self.wf(),
            self.solvent(),
            accounts_same_except(mid, self, user),
            self.has_user(user),
            self.user_at(user) == self.users@[uix],
    {
        let a0 = mid.users@[uix];
        lemma_user_ix_unique(mid, uix, user);
        if !lfound {
            a0.liens@.insert_ensures(
                lix,
                (Lien { lienholder, amount: ValueRange(0, amount), slashable: max_slash }),
            );
        }
        let a = self.users@[uix as int];
        lemma_seq_sum_push(mid.pending@, w_user_slash(user), new_tx);
        if lfound {
            assert forall|i: int, j: int| 0 <= i < j < a.liens@.len()
                implies (#[trigger] a.liens@[i]).lienholder
                    < (#[trigger] a.liens@[j]).lienholder by {
                assert(a0.liens@[i].lienholder < a0.liens@[j].lienholder);
            }
            assert forall|k: int| 0 <= k < a.liens@.len()
                implies lien_wf(#[trigger] a.liens@[k], self.pending@, user) by {
                assert(lien_wf(a0.liens@[k], mid.pending@, user));
                lemma_seq_sum_push(
                    mid.pending@,
                    w_pair_amount(user, a0.liens@[k].lienholder),
                    new_tx,
                );
            }
            assert(a.wf(self.pending@));
            assert forall|k: int| 0 <= k < a0.liens@.len()
                implies (#[trigger] a.liens@[k]).lienholder == a0.liens@[k].lienholder
                    && a.liens@[k].slashable == a0.liens@[k].slashable by {
            }
            lemma_liens_cover_pointwise(a.liens@, a0.liens@);
            assert(has_lien_entry(a.liens@, lienholder, ratio)) by {
                assert(0 <= (lix as int) && (lix as int) < a.liens@.len() && a.liens@[lix as int].lienholder
                    == lienholder && a.liens@[lix as int].slashable == ratio);
            }
            self.lemma_push_tx_frame(mid, uix as int, user, new_tx);
            assert forall|k: int| 0 <= k < a.liens@.len()
                implies (#[trigger] a.liens@[k]).amount.1 <= a.collateral by {
                if k != lix as int {
                    lemma_max_hi_ge(a0.liens@, k);
                } else {
                    lemma_max_hi_ge(a0.liens@, lix as int);
                }
            }
            lemma_max_hi_le(a.liens@, a.collateral as int);
            assert(a.solvent());
        } else {
            a0.liens@.insert_ensures(
                lix as int,
                (Lien { lienholder, amount: ValueRange(0, amount), slashable: max_slash }),
            );
            assert forall|i: int, j: int| 0 <= i < j < a.liens@.len()
                implies (#[trigger] a.liens@[i]).lienholder
                    < (#[trigger] a.liens@[j]).lienholder by {
                if j < lix as int {
                    assert(a0.liens@[i].lienholder < a0.liens@[j].lienholder);
                } else if j == lix as int {
                    assert(a0.liens@[i].lienholder < lienholder);
                } else if i < lix as int {
                    assert(a0.liens@[j - 1].lienholder > lienholder);
                    assert(a0.liens@[i].lienholder < lienholder);
                } else if i == lix as int {
                    assert(a0.liens@[j - 1].lienholder > lienholder);
                } else {
                    assert(a0.liens@[i - 1].lienholder < a0.liens@[j - 1].lienholder);
                }
            }
            assert forall|i: int| 0 <= i < mid.pending@.len()
                implies (w_pair_amount(user, lienholder))(#[trigger] mid.pending@[i])
                    == 0 by {
                let t = mid.pending@[i];
                assert(mid.tx_anchored(t));
                if t.user == user && t.lienholder == lienholder && t.ty == TxType::Stake {
                    let w = choose|w: int|
                        0 <= w < mid.user_at(user).liens@.len()
                            && (#[trigger] mid.user_at(user).liens@[w]).lienholder
                                == t.lienholder
                            && mid.user_at(user).liens@[w].slashable == t.slashable;
                    assert(a0.liens@[w].lienholder == lienholder);
                    assert(a0.has_lien(lienholder));
                    assert(false);
                }
            }
            lemma_seq_sum_zero(mid.pending@, w_pair_amount(user, lienholder));
            lemma_seq_sum_push(mid.pending@, w_pair_amount(user, lienholder), new_tx);
            assert forall|k: int| 0 <= k < a.liens@.len()
                implies lien_wf(#[trigger] a.liens@[k], self.pending@, user) by {
                if k < lix as int {
                    assert(lien_wf(a0.liens@[k], mid.pending@, user));
                    lemma_seq_sum_push(
                        mid.pending@,
                        w_pair_amount(user, a0.liens@[k].lienholder),
                        new_tx,
                    );
                } else if k > lix as int {
                    assert(lien_wf(a0.liens@[k - 1], mid.pending@, user));
                    lemma_seq_sum_push(
                        mid.pending@,
                        w_pair_amount(user, a0.liens@[k - 1].lienholder),
                        new_tx,
                    );
                }
            }
            assert(a.wf(self.pending@));
            assert forall|li: int| 0 <= li < a0.liens@.len() implies has_lien_entry(
                a.liens@,
                (#[trigger] a0.liens@[li]).lienholder,
                a0.liens@[li].slashable,
            ) by {
                if li < lix as int {
                    assert(0 <= li < a.liens@.len() && a.liens@[li].lienholder
                        == a0.liens@[li].lienholder && a.liens@[li].slashable
                        == a0.liens@[li].slashable);
                } else {
                    assert(0 <= li + 1 < a.liens@.len() && a.liens@[li + 1].lienholder
                        == a0.liens@[li].lienholder && a.liens@[li + 1].slashable
                        == a0.liens@[li].slashable);
                }
            }
            assert(has_lien_entry(a.liens@, lienholder, ratio)) by {
                assert(0 <= (lix as int) && (lix as int) < a.liens@.len() && a.liens@[lix as int].lienholder
                    == lienholder && a.liens@[lix as int].slashable == ratio);
            }
            self.lemma_push_tx_frame(mid, uix as int, user, new_tx);
            lemma_max_lo_le_hi(a0.liens@);
            assert forall|k: int| 0 <= k < a.liens@.len()
                implies (#[trigger] a.liens@[k]).amount.1 <= a.collateral by {
                if k < lix as int {
                    lemma_max_hi_ge(a0.liens@, k);
                } else if k > lix as int {
                    lemma_max_hi_ge(a0.liens@, k - 1);
                }
            }
            lemma_max_hi_le(a.liens@, a.collateral as int);
            assert(a.solvent());
        }
    }

    /// Finds the journal index of the transaction under `tx_id`.
    fn locate_tx(&self, tx_id: u64) -> (o: Option<usize>)
        requires
            self.txs_sorted(),
        ensures
            match o {
                Some(k) => k < self.pending@.len() && self.pending@[k as int].id == tx_id
                    && self.has_tx(tx_id) && self.tx_ix(tx_id) == k,
                None => !self.has_tx(tx_id),
            },
    {
        let mut i: usize = 0;
        while i < self.pending.len()
            invariant
                i <= self.pending@.len(),
                forall|j: int| 0 <= j < i ==> (#[trigger] self.pending@[j]).id != tx_id,
                self.txs_sorted(),
            decreases self.pending@.len() - i,
        {
            if self.pending[i].id == tx_id {
                proof {
                    lemma_tx_ix_unique(*self, i as int, tx_id);
                }
                return Some(i);
            }
            i = i + 1;
        }
        proof {
            if self.has_tx(tx_id) {
                let k = choose|k: int|
                    0 <= k < self.pending@.len() && (#[trigger] self.pending@[k]).id == tx_id;
                assert(self.pending@[k].id != tx_id);
            }
        }
        None
    }

    /// Commits a pending cross-chain stake; callable only by the
    /// destination the transaction was opened against.  The committed ends
    /// of the lien and of the slashable total catch up with the
    /// reservation, and the journal row is removed.  The conservative check
    /// made at prepare time guarantees the collateral rule still holds, so
    /// a commit of a pending transaction by the right caller never fails.
    #[verifier::rlimit(100)]
    pub fn commit_tx(&mut self, sender: u64, tx_id: u64) -> (r: Result<(), ContractError>)
        requires
            old(self).wf(),
            old(self).solvent(),
        ensures
            final(self).wf(),
            final(self).solvent(),
            !old(self).has_tx(tx_id) ==> r == Err::<(), ContractError>(
                ContractError::UnknownTx(tx_id),
            ) && *final(self) == *old(self),
            old(self).has_tx(tx_id) && old(self).tx_at(tx_id).lienholder != sender ==> r
                == Err::<(), ContractError>(ContractError::WrongContractTx(tx_id, sender))
                && *final(self) == *old(self),
            old(self).has_tx(tx_id) && old(self).tx_at(tx_id).lienholder == sender ==> ({
                let t = old(self).tx_at(tx_id);
                let a0 = old(self).user_at(t.user);
                let inc = spec_mul_floor(t.amount, t.slashable);
                &&& r == Ok::<(), ContractError>(())
                &&& final(self).pending@ == old(self).pending@.remove(old(self).tx_ix(tx_id))
                &&& final(self).tx_count == old(self).tx_count
                &&& accounts_same_except(*old(self), *final(self), t.user)
                &&& final(self).has_user(t.user)
                &&& final(self).user_at(t.user).collateral == a0.collateral
                &&& final(self).user_at(t.user).total_slashable == ValueRange(
                    (a0.total_slashable.0 + inc) as u64,
                    a0.total_slashable.1,
                )
                &&& final(self).user_at(t.user).liens@ == a0.liens@.update(
                    a0.lien_ix(t.lienholder),
                    (Lien {
                        amount: ValueRange(
                            (a0.lien_at(t.lienholder).amount.0 + t.amount) as u64,
                            a0.lien_at(t.lienholder).amount.1,
                        ),
                        ..a0.lien_at(t.lienholder)
                    }),
                )
            }),
    {
        let k = match self.locate_tx(tx_id) {
            None => {
                return Err(ContractError::UnknownTx(tx_id));
            }
            Some(k) => k,
        };
        let t = self.pending[k];
        if t.lienholder != sender {
            return Err(ContractError::WrongContractTx(tx_id, sender));
        }
        let ghost pre = *self;
        proof {
            assert(pre.tx_anchored(pre.pending@[k as int]));
        }
        let (uix, ufound) = self.locate_user(t.user);
        proof {
            if !ufound {
                assert(false);
            }
            lemma_user_ix_unique(pre, uix as int, t.user);
        }
        let (lix, lfound) = locate_lien(&self.users[uix].liens, t.lienholder);
        proof {
            let a0 = pre.users@[uix as int];
            let w = choose|w: int|
                0 <= w < a0.liens@.len() && (#[trigger] a0.liens@[w]).lienholder == t.lienholder
                    && a0.liens@[w].slashable == t.slashable;
            if !lfound {
                assert(a0.liens@[w].lienholder != t.lienholder);
            }
            lemma_lien_ix_unique(a0, w, lix as int);
            assert(a0.liens@[lix as int].slashable == t.slashable);
        }
        let inc = mul_floor(t.amount, self.users[uix].liens[lix].slashable);
        proof {
            let a0 = pre.users@[uix as int];
            lemma_seq_sum_ge_elem(pre.pending@, k as int, w_pair_amount(t.user, t.lienholder));
            assert forall|i: int| 0 <= i < pre.pending@.len() implies 0 <= (w_user_slash(t.user))(
                #[trigger] pre.pending@[i],
            ) by {
                assert(pre.tx_anchored(pre.pending@[i]));
                lemma_mul_floor_bounds(pre.pending@[i].amount, pre.pending@[i].slashable);
            }
            lemma_seq_sum_ge_elem(pre.pending@, k as int, w_user_slash(t.user));
            assert(lien_wf(a0.liens@[lix as int], pre.pending@, t.user));
        }
        let mut account = self.users.remove(uix);
        let mut lien = account.liens.remove(lix);
        lien.amount.0 = lien.amount.0 + t.amount;
        account.liens.insert(lix, lien);
        account.total_slashable.0 = account.total_slashable.0 + inc;
        self.users.insert(uix, account);
        self.pending.remove(k);
        proof {
            let a0 = pre.users@[uix as int];
            let a = self.users@[uix as int];
            assert(a.liens@ =~= a0.liens@.update(lix as int, a.liens@[lix as int]));
            assert(self.users@ =~= pre.users@.update(uix as int, a));
            assert forall|i: int, j: int| 0 <= i < j < a.liens@.len()
                implies (#[trigger] a.liens@[i]).lienholder
                    < (#[trigger] a.liens@[j]).lienholder by {
                assert(a0.liens@[i].lienholder < a0.liens@[j].lienholder);
            }
            assert forall|m: int| 0 <= m < a.liens@.len()
                implies lien_wf(#[trigger] a.liens@[m], self.pending@, t.user) by {
                assert(lien_wf(a0.liens@[m], pre.pending@, t.user));
                lemma_seq_sum_remove(
                    pre.pending@,
                    k as int,
                    w_pair_amount(t.user, a0.liens@[m].lienholder),
                );
                if m != lix as int {
                    lemma_lien_ix_unique(a0, m, m);
                    assert(a0.liens@[m].lienholder != t.lienholder);
                }
            }
            lemma_seq_sum_remove(pre.pending@, k as int, w_user_slash(t.user));
            assert(a.wf(self.pending@));
            assert forall|m: int| 0 <= m < a0.liens@.len()
                implies (#[trigger] a.liens@[m]).lienholder == a0.liens@[m].lienholder
                    && a.liens@[m].slashable == a0.liens@[m].slashable by {
            }
            lemma_liens_cover_pointwise(a.liens@, a0.liens@);
            self.lemma_remove_tx_frame(pre, uix as int, t.user, k as int);
            assert forall|m: int| 0 <= m < a.liens@.len()
                implies (#[trigger] a.liens@[m]).amount.1 <= a.collateral by {
                lemma_max_hi_ge(a0.liens@, m);
            }
            lemma_max_hi_le(a.liens@, a.collateral as int);
            assert(a.solvent());
            lemma_lien_at_ix(a0, lix as int);
        }
        Ok(())
    }

    /// Rolls back a pending cross-chain stake; callable only by the
    /// destination the transaction was opened against.  The reservation on
    /// the optimistic ends of the lien and of the slashable total is
    /// withdrawn, and the journal row is removed.  A rollback of a pending
    /// transaction by the right caller never fails; one of an unknown id
    /// always does.
    #[verifier::rlimit(100)]
    pub fn rollback_tx(&mut self, sender: u64, tx_id: u64) -> (r: Result<(), ContractError>)
        requires
            old(self).wf(),
            old(self).solvent(),
        ensures
            final(self).wf(),
            final(self).solvent(),
            !old(self).has_tx(tx_id) ==> r == Err::<(), ContractError>(
                ContractError::UnknownTx(tx_id),
            ) && *final(self) == *old(self),
            old(self).has_tx(tx_id) && old(self).tx_at(tx_id).lienholder != sender ==> r
                == Err::<(), ContractError>(ContractError::WrongContractTx(tx_id, sender))
                && *final(self) == *old(self),
            old(self).has_tx(tx_id) && old(self).tx_at(tx_id).lienholder == sender ==> ({
                let t = old(self).tx_at(tx_id);
                let a0 = old(self).user_at(t.user);
                let inc = spec_mul_floor(t.amount, t.slashable);
                &&& r == Ok::<(), ContractError>(())
                &&& final(self).pending@ == old(self).pending@.remove(old(self).tx_ix(tx_id))
                &&& final(self).tx_count == old(self).tx_count
                &&& accounts_same_except(*old(self), *final(self), t.user)
                &&& final(self).has_user(t.user)
                &&& final(self).user_at(t.user).collateral == a0.collateral
                &&& final(self).user_at(t.user).total_slashable == ValueRange(
                    a0.total_slashable.0,
                    (a0.total_slashable.1 - inc) as u64,
                )
                &&& final(self).user_at(t.user).liens@ == a0.liens@.update(
                    a0.lien_ix(t.lienholder),
                    (Lien {
                        amount: ValueRange(
                            a0.lien_at(t.lienholder).amount.0,
                            (a0.lien_at(t.lienholder).amount.1 - t.amount) as u64,
                        ),
                        ..a0.lien_at(t.lienholder)
                    }),
                )
            }),
    {
        let k = match self.locate_tx(tx_id) {
            None => {
                return Err(ContractError::UnknownTx(tx_id));
            }
            Some(k) => k,
        };
        let t = self.pending[k];
        if t.lienholder != sender {
            return Err(ContractError::WrongContractTx(tx_id, sender));
        }
        let ghost pre = *self;
        proof {
            assert(pre.tx_anchored(pre.pending@[k as int]));
        }
        let (uix, ufound) = self.locate_user(t.user);
        proof {
            if !ufound {
                assert(false);
            }
            lemma_user_ix_unique(pre, uix as int, t.user);
        }
        let (lix, lfound) = locate_lien(&self.users[uix].liens, t.lienholder);
        proof {
            let a0 = pre.users@[uix as int];
            let w = choose|w: int|
                0 <= w < a0.liens@.len() && (#[trigger] a0.liens@[w]).lienholder == t.lienholder
                    && a0.liens@[w].slashable == t.slashable;
            if !lfound {
                assert(a0.liens@[w].lienholder != t.lienholder);
            }
            lemma_lien_ix_unique(a0, w, lix as int);
            assert(a0.liens@[lix as int].slashable == t.slashable);
        }
        let inc = mul_floor(t.amount, self.users[uix].liens[lix].slashable);
        proof {
            let a0 = pre.users@[uix as int];
            lemma_seq_sum_ge_elem(pre.pending@, k as int, w_pair_amount(t.user, t.lienholder));
            assert forall|i: int| 0 <= i < pre.pending@.len() implies 0 <= (w_user_slash(t.user))(
                #[trigger] pre.pending@[i],
            ) by {
                assert(pre.tx_anchored(pre.pending@[i]));
                lemma_mul_floor_bounds(pre.pending@[i].amount, pre.pending@[i].slashable);
            }
            lemma_seq_sum_ge_elem(pre.pending@, k as int, w_user_slash(t.user));
            assert(lien_wf(a0.liens@[lix as int], pre.pending@, t.user));
        }
        let mut account = self.users.remove(uix);
        let mut lien = account.liens.remove(lix);
        lien.amount.1 = lien.amount.1 - t.amount;
        account.liens.insert(lix, lien);
        account.total_slashable.1 = account.total_slashable.1 - inc;
        self.users.insert(uix, account);
        self.pending.remove(k);
        proof {
            let a0 = pre.users@[uix as int];
            let a = self.users@[uix as int];
            assert(a.liens@ =~= a0.liens@.update(lix as int, a.liens@[lix as int]));
            assert(self.users@ =~= pre.users@.update(uix as int, a));
            assert forall|i: int, j: int| 0 <= i < j < a.liens@.len()
                implies (#[trigger] a.liens@[i]).lienholder
                    < (#[trigger] a.liens@[j]).lienholder by {
                assert(a0.liens@[i].lienholder < a0.liens@[j].lienholder);
            }
            assert forall|m: int| 0 <= m < a.liens@.len()
                implies lien_wf(#[trigger] a.liens@[m], self.pending@, t.user) by {
                assert(lien_wf(a0.liens@[m], pre.pending@, t.user));
                lemma_seq_sum_remove(
                    pre.pending@,
                    k as int,
                    w_pair_amount(t.user, a0.liens@[m].lienholder),
                );
                if m != lix as int {
                    assert(a0.liens@[m].lienholder != t.lienholder);
                }
            }
            lemma_seq_sum_remove(pre.pending@, k as int, w_user_slash(t.user));
            assert(a.wf(self.pending@));
            assert forall|m: int| 0 <= m < a0.liens@.len()
                implies (#[trigger] a.liens@[m]).lienholder == a0.liens@[m].lienholder
                    && a.liens@[m].slashable == a0.liens@[m].slashable by {
            }
            lemma_liens_cover_pointwise(a.liens@, a0.liens@);
            self.lemma_remove_tx_frame(pre, uix as int, t.user, k as int);
            assert forall|m: int| 0 <= m < a.liens@.len()
                implies (#[trigger] a.liens@[m]).amount.1 <= a.collateral by {
                lemma_max_hi_ge(a0.liens@, m);
            }
            lemma_max_hi_le(a.liens@, a.collateral as int);
            assert(a.solvent());
            lemma_lien_at_ix(a0, lix as int);
        }
        Ok(())
    }

    /// Releases `amount` of the lien `(owner, lienholder)`: the destination
    /// reported that an unstake cleared, so both ends of the lien drop at
    /// once, and the slashable total drops by the floored slashable part
    /// (saturating at its committed end).  Fails with `UnknownLienholder`
    /// when no lien backs the caller and with `InsufficientLien` when the
    /// committed lien is smaller than the release.
    #[verifier::rlimit(100)]
    pub fn unstake(&mut self, owner: u64, lienholder: u64, amount: u64) -> (r: Result<
        (),
        ContractError,
    >)
        requires
            old(self).wf(),
            old(self).solvent(),
        ensures
            final(self).wf(),
            final(self).solvent(),
            !old(self).has_user(owner) || (old(self).has_user(owner) && !old(self).user_at(
                owner,
            ).has_lien(lienholder)) ==> r == Err::<(), ContractError>(
                ContractError::UnknownLienholder,
            ) && *final(self) == *old(self),
            old(self).has_user(owner) && old(self).user_at(owner).has_lien(lienholder)
                && old(self).user_at(owner).lien_at(lienholder).amount.0 < amount ==> r
                == Err::<(), ContractError>(ContractError::InsufficientLien) && *final(self)
                == *old(self),
            old(self).has_user(owner) && old(self).user_at(owner).has_lien(lienholder)
                && old(self).user_at(owner).lien_at(lienholder).amount.0 >= amount ==> ({
                let a0 = old(self).user_at(owner);
                let l0 = a0.lien_at(lienholder);
                let d = spec_mul_floor(amount, l0.slashable);
                let dd = if d > a0.total_slashable.0 {
                    a0.total_slashable.0 as int
                } else {
                    d
                };
                &&& r == Ok::<(), ContractError>(())
                &&& same_except_user(*old(self), *final(self), owner)
                &&& final(self).has_user(owner)
                &&& final(self).user_at(owner).collateral == a0.collateral
                &&& final(self).user_at(owner).total_slashable == ValueRange(
                    (a0.total_slashable.0 - dd) as u64,
                    (a0.total_slashable.1 - dd) as u64,
                )
                &&& final(self).user_at(owner).liens@ == a0.liens@.update(
                    a0.lien_ix(lienholder),
                    (Lien {
                        amount: ValueRange(
                            (l0.amount.0 - amount) as u64,
                            (l0.amount.1 - amount) as u64,
                        ),
                        ..l0
                    }),
                )
            }),
    {
        let (uix, ufound) = self.locate_user(owner);
        if !ufound {
            return Err(ContractError::UnknownLienholder);
        }
        let ghost pre = *self;
        proof {
            lemma_user_ix_unique(pre, uix as int, owner);
        }
        let (lix, lfound) = locate_lien(&self.users[uix].liens, lienholder);
        proof {
            let a0 = pre.users@[uix as int];
            if lfound {
                lemma_lien_at_ix(a0, lix as int);
            } else {
                if a0.has_lien(lienholder) {
                    let w = a0.lien_ix(lienholder);
                    assert(a0.liens@[w].lienholder != lienholder);
                }
            }
        }
        if !lfound {
            return Err(ContractError::UnknownLienholder);
        }
        if self.users[uix].liens[lix].amount.0 < amount {
            return Err(ContractError::InsufficientLien);
        }
        let d = mul_floor(amount, self.users[uix].liens[lix].slashable);
        proof {
            let a0 = pre.users@[uix as int];
            assert(lien_wf(a0.liens@[lix as int], pre.pending@, owner));
            lemma_seq_sum_nonneg(pre.pending@, w_pair_amount(owner, lienholder));
        }
        let ts0 = self.users[uix].total_slashable.0;
        let dd = if d > ts0 {
            ts0
        } else {
            d
        };
        let mut account = self.users.remove(uix);
        let mut lien = account.liens.remove(lix);
        lien.amount.0 = lien.amount.0 - amount;
        lien.amount.1 = lien.amount.1 - amount;
        account.liens.insert(lix, lien);
        account.total_slashable.0 = account.total_slashable.0 - dd;
        account.total_slashable.1 = account.total_slashable.1 - dd;
        self.users.insert(uix, account);
        proof {
            let a0 = pre.users@[uix as int];
            let a = self.users@[uix as int];
            assert(a.liens@ =~= a0.liens@.update(lix as int, a.liens@[lix as int]));
            assert(self.users@ =~= pre.users@.update(uix as int, a));
            assert forall|i: int, j: int| 0 <= i < j < a.liens@.len()
                implies (#[trigger] a.liens@[i]).lienholder
                    < (#[trigger] a.liens@[j]).lienholder by {
                assert(a0.liens@[i].lienholder < a0.liens@[j].lienholder);
            }
            assert forall|m: int| 0 <= m < a.liens@.len()
                implies lien_wf(#[trigger] a.liens@[m], self.pending@, owner) by {
                assert(lien_wf(a0.liens@[m], pre.pending@, owner));
            }
            assert(a.wf(self.pending@));
            assert forall|m: int| 0 <= m < a0.liens@.len()
                implies (#[trigger] a.liens@[m]).lienholder == a0.liens@[m].lienholder
                    && a.liens@[m].slashable == a0.liens@[m].slashable by {
            }
            lemma_liens_cover_pointwise(a.liens@, a0.liens@);
            self.lemma_update_user_frame(pre, uix as int, owner);
            assert forall|m: int| 0 <= m < a.liens@.len()
                implies (#[trigger] a.liens@[m]).amount.1 <= a.collateral by {
                lemma_max_hi_ge(a0.liens@, m);
            }
            lemma_max_hi_le(a.liens@, a.collateral as int);
            assert(a.solvent());
            lemma_lien_at_ix(a0, lix as int);
        }
        Ok(())
    }

    /// A destination reports a cleared cross-chain unstake: releases the
    /// `(owner, sender)` lien by `amount`.
    pub fn release_cross_stake(&mut self, sender: u64, owner: u64, amount: u64, denom: u64) -> (r:
        Result<(), ContractError>)
        requires
            old(self).wf(),
            old(self).solvent(),
        ensures
            final(self).wf(),
            final(self).solvent(),
            denom != old(self).config.denom ==> r == Err::<(), ContractError>(
                ContractError::UnexpectedDenom(old(self).config.denom),
            ) && *final(self) == *old(self),
            denom == old(self).config.denom && (!old(self).has_user(owner) || (old(
                self,
            ).has_user(owner) && !old(self).user_at(owner).has_lien(sender))) ==> r == Err::<
                (),
                ContractError,
            >(ContractError::UnknownLienholder) && *final(self) == *old(self),
            denom == old(self).config.denom && old(self).has_user(owner) && old(self).user_at(
                owner,
            ).has_lien(sender) && old(self).user_at(owner).lien_at(sender).amount.0 < amount ==> r
                == Err::<(), ContractError>(ContractError::InsufficientLien) && *final(self)
                == *old(self),
            denom == old(self).config.denom && old(self).has_user(owner) && old(self).user_at(
                owner,
            ).has_lien(sender) && old(self).user_at(owner).lien_at(sender).amount.0 >= amount
                ==> ({
                let a0 = old(self).user_at(owner);
                let l0 = a0.lien_at(sender);
                let d = spec_mul_floor(amount, l0.slashable);
                let dd = if d > a0.total_slashable.0 {
                    a0.total_slashable.0 as int
                } else {
                    d
                };
                &&& r == Ok::<(), ContractError>(())
                &&& same_except_user(*old(self), *final(self), owner)
                &&& final(self).has_user(owner)
                &&& final(self).user_at(owner).collateral == a0.collateral
                &&& final(self).user_at(owner).total_slashable == ValueRange(
                    (a0.total_slashable.0 - dd) as u64,
                    (a0.total_slashable.1 - dd) as u64,
                )
                &&& final(self).user_at(owner).liens@ == a0.liens@.update(
                    a0.lien_ix(sender),
                    (Lien {
                        amount: ValueRange(
                            (l0.amount.0 - amount) as u64,
                            (l0.amount.1 - amount) as u64,
                        ),
                        ..l0
                    }),
                )
            }),
    {
        if denom != self.config.denom {
            return Err(ContractError::UnexpectedDenom(self.config.denom));
        }
        self.unstake(owner, sender, amount)
    }

    /// The local staking contract returns tokens it held: releases the
    /// `(owner, sender)` lien by the amount attached as funds.
    pub fn release_local_stake(&mut self, sender: u64, owner: u64, amount: u64, denom: u64) -> (r:
        Result<(), ContractError>)
        requires
            old(self).wf(),
            old(self).solvent(),
        ensures
            final(self).wf(),
            final(self).solvent(),
            denom != old(self).config.denom ==> r == Err::<(), ContractError>(
                ContractError::UnexpectedDenom(old(self).config.denom),
            ) && *final(self) == *old(self),
            denom == old(self).config.denom && (!old(self).has_user(owner) || (old(
                self,
            ).has_user(owner) && !old(self).user_at(owner).has_lien(sender))) ==> r == Err::<
                (),
                ContractError,
            >(ContractError::UnknownLienholder) && *final(self) == *old(self),
            denom == old(self).config.denom && old(self).has_user(owner) && old(self).user_at(
                owner,
            ).has_lien(sender) && old(self).user_at(owner).lien_at(sender).amount.0 < amount ==> r
                == Err::<(), ContractError>(ContractError::InsufficientLien) && *final(self)
                == *old(self),
            denom == old(self).config.denom && old(self).has_user(owner) && old(self).user_at(
                owner,
            ).has_lien(sender) && old(self).user_at(owner).lien_at(sender).amount.0 >= amount
                ==> ({
                let a0 = old(self).user_at(owner);
                let l0 = a0.lien_at(sender);
                let d = spec_mul_floor(amount, l0.slashable);
                let dd = if d > a0.total_slashable.0 {
                    a0.total_slashable.0 as int
                } else {
                    d
                };
                &&& r == Ok::<(), ContractError>(())
                &&& same_except_user(*old(self), *final(self), owner)
                &&& final(self).has_user(owner)
                &&& final(self).user_at(owner).collateral == a0.collateral
                &&& final(self).user_at(owner).total_slashable == ValueRange(
                    (a0.total_slashable.0 - dd) as u64,
                    (a0.total_slashable.1 - dd) as u64,
                )
                &&& final(self).user_at(owner).liens@ == a0.liens@.update(
                    a0.lien_ix(sender),
                    (Lien {
                        amount: ValueRange(
                            (l0.amount.0 - amount) as u64,
                            (l0.amount.1 - amount) as u64,
                        ),
                        ..l0
                    }),
                )
            }),
    {
        if denom != self.config.denom {
            return Err(ContractError::UnexpectedDenom(self.config.denom));
        }
        self.unstake(owner, sender, amount)
    }

    /// The free-collateral range of an account.
    fn free_of(a: &UserAccount) -> (f: ValueRange)
        requires
            forall|i: int| 0 <= i < a.liens@.len() ==> (#[trigger] a.liens@[i]).amount.wf(),
            a.total_slashable.wf(),
            a.solvent(),
        ensures
            f == spec_free(*a),
            f.wf(),
    {
        let mhi = Self::max_lien_hi_of(&a.liens);
        let mlo = Self::max_lien_lo_of(&a.liens);
        proof {
            lemma_max_lo_le_hi(a.liens@);
        }
        let top = if mhi > a.total_slashable.1 {
            mhi
        } else {
            a.total_slashable.1
        };
        let bot = if mlo > a.total_slashable.0 {
            mlo
        } else {
            a.total_slashable.0
        };
        ValueRange(a.collateral - top, a.collateral - bot)
    }

    /// Returns bonded collateral to the user, after checking it is free
    /// even under the optimistic resolution of every in-flight operation;
    /// fails with `ClaimsLocked` (carrying the free range) otherwise.
    pub fn unbond(&mut self, user: u64, amount: u64, denom: u64) -> (r: Result<(), ContractError>)
        requires
            old(self).wf(),
            old(self).solvent(),
        ensures
            final(self).wf(),
            final(self).solvent(),
            denom != old(self).config.denom ==> r == Err::<(), ContractError>(
                ContractError::UnexpectedDenom(old(self).config.denom),
            ) && *final(self) == *old(self),
            denom == old(self).config.denom && !old(self).has_user(user) && amount > 0 ==> r
                == Err::<(), ContractError>(ContractError::ClaimsLocked(ValueRange(0, 0)))
                && *final(self) == *old(self),
            denom == old(self).config.denom && old(self).has_user(user) ==> ({
                let a0 = old(self).user_at(user);
                &&& (amount > spec_free(a0).0 ==> r == Err::<(), ContractError>(
                    ContractError::ClaimsLocked(spec_free(a0)),
                ) && *final(self) == *old(self))
                &&& (amount <= spec_free(a0).0 ==> {
                    &&& r == Ok::<(), ContractError>(())
                    &&& same_except_user(*old(self), *final(self), user)
                    &&& final(self).has_user(user)
                    &&& final(self).user_at(user) == (UserAccount {
                        collateral: (a0.collateral - amount) as u64,
                        ..a0
                    })
                })
            }),
    {
        if denom != self.config.denom {
            return Err(ContractError::UnexpectedDenom(self.config.denom));
        }
        let (uix, ufound) = self.locate_user(user);
        if !ufound {
            if amount > 0 {
                return Err(ContractError::ClaimsLocked(ValueRange(0, 0)));
            }
            let ghost pre = *self;
            let account = UserAccount {
                user,
                collateral: 0,
                total_slashable: ValueRange(0, 0),
                liens: Vec::new(),
            };
            self.users.insert(uix, account);
            proof {
                pre.users@.insert_ensures(uix as int, self.users@[uix as int]);
                assert forall|i: int| 0 <= i < pre.pending@.len()
                    implies (w_user_slash(user))(#[trigger] pre.pending@[i]) == 0 by {
                    let t = pre.pending@[i];
                    assert(pre.tx_anchored(t));
                    if t.user == user {
                        assert(pre.has_user(user));
                    }
                }
                lemma_seq_sum_zero(pre.pending@, w_user_slash(user));
                assert(self.users@[uix as int].wf(pre.pending@));
                self.lemma_insert_user_frame(pre, uix as int, user);
                assert(self.users@[uix as int].solvent());
            }
            return Ok(());
        }
        let ghost pre = *self;
        proof {
            lemma_user_ix_unique(pre, uix as int, user);
        }
        let free = Self::free_of(&self.users[uix]);
        if amount > free.0 {
            return Err(ContractError::ClaimsLocked(free));
        }
        let mut account = self.users.remove(uix);
        account.collateral = account.collateral - amount;
        self.users.insert(uix, account);
        proof {
            let a0 = pre.users@[uix as int];
            let a = self.users@[uix as int];
            assert(self.users@ =~= pre.users@.update(uix as int, a));
            assert(a.wf(pre.pending@));
            lemma_liens_cover_refl(a.liens@);
            self.lemma_update_user_frame(pre, uix as int, user);
            assert(a.solvent());
        }
        Ok(())
    }

    /// The vault configuration.
    pub fn config(&self) -> (c: Config)
        ensures
            c == self.config,
    {
        self.config
    }

    /// One user's account: bonded collateral and the free range.  An
    /// address that never bonded reports zeroes.
    pub fn account(&self, user: u64) -> (resp: AccountResponse)
        requires
            self.wf(),
            self.solvent(),
        ensures
            !self.has_user(user) ==> resp == (AccountResponse {
                denom: self.config.denom,
                bonded: 0,
                free: ValueRange(0, 0),
            }),
            self.has_user(user) ==> resp == (AccountResponse {
                denom: self.config.denom,
                bonded: self.user_at(user).collateral,
                free: spec_free(self.user_at(user)),
            }),
    {
        let (uix, ufound) = self.locate_user(user);
        if !ufound {
            return AccountResponse { denom: self.config.denom, bonded: 0, free: ValueRange(0, 0) };
        }
        proof {
            lemma_user_ix_unique(*self, uix as int, user);
        }
        let free = Self::free_of(&self.users[uix]);
        AccountResponse { denom: self.config.denom, bonded: self.users[uix].collateral, free }
    }

    /// One user's account in full: bonded, free, the maximum lien over both
    /// resolutions, and the slashable total.
    pub fn account_details(&self, user: u64) -> (resp: AccountDetailsResponse)
        requires
            self.wf(),
            self.solvent(),
        ensures
            !self.has_user(user) ==> resp == (AccountDetailsResponse {
                denom: self.config.denom,
                bonded: 0,
                free: ValueRange(0, 0),
                max_lien: ValueRange(0, 0),
                total_slashable: ValueRange(0, 0),
            }),
            self.has_user(user) ==> resp == (AccountDetailsResponse {
                denom: self.config.denom,
                bonded: self.user_at(user).collateral,
                free: spec_free(self.user_at(user)),
                max_lien: ValueRange(
                    max_lien_lo(self.user_at(user).liens@) as u64,
                    max_lien_hi(self.user_at(user).liens@) as u64,
                ),
                total_slashable: self.user_at(user).total_slashable,
            }),
    {
        let (uix, ufound) = self.locate_user(user);
        if !ufound {
            return AccountDetailsResponse {
                denom: self.config.denom,
                bonded: 0,
                free: ValueRange(0, 0),
                max_lien: ValueRange(0, 0),
                total_slashable: ValueRange(0, 0),
            };
        }
        proof {
            lemma_user_ix_unique(*self, uix as int, user);
        }
        let free = Self::free_of(&self.users[uix]);
        let mlo = Self::max_lien_lo_of(&self.users[uix].liens);
        let mhi = Self::max_lien_hi_of(&self.users[uix].liens);
        AccountDetailsResponse {
            denom: self.config.denom,
            bonded: self.users[uix].collateral,
            free,
            max_lien: ValueRange(mlo, mhi),
            total_slashable: self.users[uix].total_slashable,
        }
    }

    /// The single claim between a user and a lienholder.
    pub fn claim(&self, user: u64, lienholder: u64) -> (r: Result<Lien, ContractError>)
        requires
            self.wf(),
        ensures
            self.has_user(user) && self.user_at(user).has_lien(lienholder) ==> r == Ok::<
                Lien,
                ContractError,
            >(self.user_at(user).lien_at(lienholder)),
            !self.has_user(user) || !(self.has_user(user) && self.user_at(user).has_lien(
                lienholder,
            )) ==> r == Err::<Lien, ContractError>(ContractError::UnknownLienholder),
    {
        let (uix, ufound) = self.locate_user(user);
        if !ufound {
            return Err(ContractError::UnknownLienholder);
        }
        proof {
            lemma_user_ix_unique(*self, uix as int, user);
        }
        let (lix, lfound) = locate_lien(&self.users[uix].liens, lienholder);
        proof {
            if lfound {
                lemma_lien_at_ix(self.users@[uix as int], lix as int);
            } else {
                if self.users@[uix as int].has_lien(lienholder) {
                    let w = self.users@[uix as int].lien_ix(lienholder);
                    assert(self.users@[uix as int].liens@[w].lienholder != lienholder);
                }
            }
        }
        if !lfound {
            return Err(ContractError::UnknownLienholder);
        }
        Ok(self.users[uix].liens[lix])
    }

    /// Paginated claims of one user, ascending by lienholder;
    /// `start_after` is exclusive.
    pub fn account_claims(&self, user: u64, start_after: Option<u64>, limit: Option<u32>) -> (resp:
        Vec<LienResponse>)
        requires
            self.wf(),
        ensures
            !self.has_user(user) ==> resp@ == Seq::<LienResponse>::empty(),
            self.has_user(user) ==> resp@ == spec_claims_page(
                self.user_at(user).liens@,
                start_after,
                crate::pages::spec_page_limit(limit),
            ),
    {
        let lim = crate::pages::clamp_page_limit(limit);
        let (uix, ufound) = self.locate_user(user);
        if !ufound {
            let out: Vec<LienResponse> = Vec::new();
            return out;
        }
        proof {
            lemma_user_ix_unique(*self, uix as int, user);
        }
        let liens = &self.users[uix].liens;
        let mut out: Vec<LienResponse> = Vec::new();
        let mut i: usize = 0;
        proof {
            assert(liens@.skip(0) =~= liens@);
            assert(out@ + spec_claims_page(liens@, start_after, lim as int) =~= spec_claims_page(
                liens@,
                start_after,
                lim as int,
            ));
        }
        while i < liens.len() && out.len() < lim
            invariant
                i <= liens@.len(),
                out@.len() <= lim,
                spec_claims_page(liens@, start_after, lim as int) == out@ + spec_claims_page(
                    liens@.skip(i as int),
                    start_after,
                    lim - out@.len(),
                ),
            decreases liens@.len() - i,
        {
            proof {
                assert(liens@.skip(i as int)[0] == liens@[i as int]);
                assert(liens@.skip(i as int).skip(1) =~= liens@.skip(i + 1));
            }
            let h = liens[i];
            let skipped = match start_after {
                Some(a) => h.lienholder <= a,
                None => false,
            };
            if !skipped {
                let ghost out0 = out@;
                out.push(LienResponse { lienholder: h.lienholder, amount: h.amount });
                proof {
                    let item = LienResponse { lienholder: h.lienholder, amount: h.amount };
                    assert(out0 + (seq![item] + spec_claims_page(
                        liens@.skip(i + 1),
                        start_after,
                        lim - out0.len() - 1,
                    )) =~= out@ + spec_claims_page(
                        liens@.skip(i + 1),
                        start_after,
                        lim - out@.len(),
                    ));
                }
            }
            i = i + 1;
        }
        proof {
            if out@.len() == lim {
                assert(spec_claims_page(liens@.skip(i as int), start_after, 0) =~= Seq::<
                    LienResponse,
                >::empty());
            } else {
                assert(liens@.skip(i as int) =~= Seq::<Lien>::empty());
            }
            assert(out@ + Seq::<LienResponse>::empty() =~= out@);
        }
        out
    }

    /// Paginated view over every account, ascending by address;
    /// `start_after` is exclusive, and with `with_collateral` accounts
    /// without collateral are passed over.
    pub fn all_accounts(
        &self,
        with_collateral: bool,
        start_after: Option<u64>,
        limit: Option<u32>,
    ) -> (resp: Vec<AllAccountsResponseItem>)
        requires
            self.wf(),
            self.solvent(),
        ensures
            resp@ == spec_accounts_page(
                self.users@,
                self.config.denom,
                with_collateral,
                start_after,
                crate::pages::spec_page_limit(limit),
            ),
    {
        let lim = crate::pages::clamp_page_limit(limit);
        let denom = self.config.denom;
        let mut out: Vec<AllAccountsResponseItem> = Vec::new();
        let mut i: usize = 0;
        proof {
            assert(self.users@.skip(0) =~= self.users@);
            assert(out@ + spec_accounts_page(
                self.users@,
                denom,
                with_collateral,
                start_after,
                lim as int,
            ) =~= spec_accounts_page(
                self.users@,
                denom,
                with_collateral,
                start_after,
                lim as int,
            ));
        }
        while i < self.users.len() && out.len() < lim
            invariant
                i <= self.users@.len(),
                out@.len() <= lim,
                denom == self.config.denom,
                self.wf(),
                self.solvent(),
                spec_accounts_page(self.users@, denom, with_collateral, start_after, lim as int)
                    == out@ + spec_accounts_page(
                    self.users@.skip(i as int),
                    denom,
                    with_collateral,
                    start_after,
                    lim - out@.len(),
                ),
            decreases self.users@.len() - i,
        {
            proof {
                assert(self.users@.skip(i as int)[0] == self.users@[i as int]);
                assert(self.users@.skip(i as int).skip(1) =~= self.users@.skip(i + 1));
            }
            let h = &self.users[i];
            let skipped = (match start_after {
                Some(a) => h.user <= a,
                None => false,
            }) || (with_collateral && h.collateral == 0);
            if !skipped {
                let free = Self::free_of(h);
                let ghost out0 = out@;
                out.push(AllAccountsResponseItem {
                    user: h.user,
                    account: AccountResponse { denom, bonded: h.collateral, free },
                });
                proof {
                    let item = AllAccountsResponseItem {
                        user: self.users@[i as int].user,
                        account: AccountResponse {
                            denom,
                            bonded: self.users@[i as int].collateral,
                            free: spec_free(self.users@[i as int]),
                        },
                    };
                    assert(out0 + (seq![item] + spec_accounts_page(
                        self.users@.skip(i + 1),
                        denom,
                        with_collateral,
                        start_after,
                        lim - out0.len() - 1,
                    )) =~= out@ + spec_accounts_page(
                        self.users@.skip(i + 1),
                        denom,
                        with_collateral,
                        start_after,
                        lim - out@.len(),
                    ));
                }
            }
            i = i + 1;
        }
        proof {
            if out@.len() == lim {
                assert(spec_accounts_page(
                    self.users@.skip(i as int),
                    denom,
                    with_collateral,
                    start_after,
                    0,
                ) =~= Seq::<AllAccountsResponseItem>::empty());
            } else {
                assert(self.users@.skip(i as int) =~= Seq::<UserAccount>::empty());
            }
            assert(out@ + Seq::<AllAccountsResponseItem>::empty() =~= out@);
        }
        out
    }

    /// Paginated journal, newest first; `start_after` is the last id of the
    /// previous page, exclusive.
    pub fn all_pending_txs_desc(&self, start_after: Option<u64>, limit: Option<u32>) -> (resp: Vec<
        Tx,
    >)
        ensures
            resp@ == spec_txs_page_desc(
                self.pending@,
                start_after,
                crate::pages::spec_page_limit(limit),
            ),
    {
        let lim = crate::pages::clamp_page_limit(limit);
        let mut out: Vec<Tx> = Vec::new();
        let mut i: usize = self.pending.len();
        proof {
            assert(self.pending@.take(i as int) =~= self.pending@);
            assert(out@ + spec_txs_page_desc(self.pending@, start_after, lim as int)
                =~= spec_txs_page_desc(self.pending@, start_after, lim as int));
        }
        while i > 0 && out.len() < lim
            invariant
                i <= self.pending@.len(),
                out@.len() <= lim,
                spec_txs_page_desc(self.pending@, start_after, lim as int) == out@
                    + spec_txs_page_desc(
                    self.pending@.take(i as int),
                    start_after,
                    lim - out@.len(),
                ),
            decreases i,
        {
            proof {
                assert(self.pending@.take(i as int).last() == self.pending@[i - 1]);
                assert(self.pending@.take(i as int).drop_last() =~= self.pending@.take(i - 1));
            }
            let h = self.pending[i - 1];
            let skipped = match start_after {
                Some(a) => h.id >= a,
                None => false,
            };
            if !skipped {
                let ghost out0 = out@;
                out.push(h);
                proof {
                    assert(out0 + (seq![h] + spec_txs_page_desc(
                        self.pending@.take(i - 1),
                        start_after,
                        lim - out0.len() - 1,
                    )) =~= out@ + spec_txs_page_desc(
                        self.pending@.take(i - 1),
                        start_after,
                        lim - out@.len(),
                    ));
                }
            }
            i = i - 1;
        }
        proof {
            if out@.len() == lim {
                assert(spec_txs_page_desc(self.pending@.take(i as int), start_after, 0) =~= Seq::<
                    Tx,
                >::empty());
            } else {
                assert(self.pending@.take(0) =~= Seq::<Tx>::empty());
            }
            assert(out@ + Seq::<Tx>::empty() =~= out@);
        }
        out
    }

    /// Absorbs a slashing event reported by a destination: the `(user,
    /// lienholder)` lien and the collateral drop by `slash_amount`, the
    /// slashable total drops by the floored slashable part, and the
    /// remaining liens are repaired against the reduced collateral — first
    /// a uniform reduction spread over all liens when the slashable total
    /// still exceeds the collateral, then a cap of every lien at the
    /// collateral.  Truncation is towards zero at every step.  Only a user
    /// with no in-flight operations can be slashed.
    #[verifier::rlimit(100)]
    pub fn slash(&mut self, user: u64, lienholder: u64, slash_amount: u64) -> (r: Result<
        (),
        ContractError,
    >)
        requires
            old(self).wf(),
            old(self).solvent(),
        ensures
            final(self).wf(),
            !old(self).has_user(user) || (old(self).has_user(user) && !old(self).user_at(
                user,
            ).has_lien(lienholder)) ==> r == Err::<(), ContractError>(
                ContractError::UnknownLienholder,
            ) && *final(self) == *old(self),
            old(self).has_user(user) && old(self).user_at(user).has_lien(lienholder)
                && !old(self).user_at(user).settled() ==> r == Err::<(), ContractError>(
                ContractError::Locked,
            ) && *final(self) == *old(self),
            old(self).has_user(user) && old(self).user_at(user).has_lien(lienholder)
                && old(self).user_at(user).settled() && old(self).user_at(user).lien_at(
                lienholder,
            ).amount.0 < slash_amount ==> r == Err::<(), ContractError>(
                ContractError::InsufficientLien,
            ) && *final(self) == *old(self),
            old(self).has_user(user) && old(self).user_at(user).has_lien(lienholder)
                && old(self).user_at(user).settled() && old(self).user_at(user).lien_at(
                lienholder,
            ).amount.0 >= slash_amount ==> ({
                let a0 = old(self).user_at(user);
                let af = final(self).user_at(user);
                &&& r == Ok::<(), ContractError>(())
                &&& same_except_user(*old(self), *final(self), user)
                &&& final(self).has_user(user)
                &&& af.collateral == a0.collateral - slash_amount
                &&& af.settled()
                &&& af.liens@.len() == a0.liens@.len()
                &&& (forall|k: int|
                    0 <= k < a0.liens@.len() ==> (#[trigger] af.liens@[k]).lienholder
                        == a0.liens@[k].lienholder && af.liens@[k].slashable
                        == a0.liens@[k].slashable)
                &&& (forall|k: int|
                    0 <= k < a0.liens@.len() ==> (#[trigger] af.liens@[k]).amount.1
                        <= a0.liens@[k].amount.1)
                &&& af.total_slashable.1 <= a0.total_slashable.1
                &&& max_lien_hi(af.liens@) <= af.collateral
                &&& ({
                    let l0 = a0.lien_at(lienholder);
                    let dslash = spec_mul_floor(slash_amount, l0.slashable);
                    let ncoll = (a0.collateral - slash_amount) as u64;
                    let liens1 = a0.liens@.update(
                        a0.lien_ix(lienholder),
                        (Lien {
                            amount: ValueRange(
                                (l0.amount.0 - slash_amount) as u64,
                                (l0.amount.1 - slash_amount) as u64,
                            ),
                            ..l0
                        }),
                    );
                    let ts1 = a0.total_slashable.0 - (if dslash > a0.total_slashable.0 {
                        a0.total_slashable.0 as int
                    } else {
                        dslash
                    });
                    let sum_ppb = seq_sum(liens1, w_lien_ppb());
                    let d = (if ts1 > ncoll && sum_ppb > 0 {
                        let d128 = spec_ceil_div((ts1 - ncoll) * (RATIO_ONE as int), sum_ppb);
                        if d128 > u64::MAX {
                            u64::MAX as int
                        } else {
                            d128
                        }
                    } else {
                        0
                    }) as u64;
                    let liens2 = if ts1 > ncoll && sum_ppb > 0 {
                        Seq::new(liens1.len(), (|k: int| spec_prop_lien(liens1[k], d)))
                    } else {
                        liens1
                    };
                    let ts2 = if ts1 > ncoll && sum_ppb > 0 {
                        spec_prop_ts(liens1, d, ts1, liens1.len() as int)
                    } else {
                        ts1
                    };
                    let ts3 = spec_cap_ts(liens2, ncoll, ts2, liens2.len() as int);
                    &&& af.liens@ == Seq::new(
                        liens2.len(),
                        (|k: int| spec_cap_lien(liens2[k], ncoll)),
                    )
                    &&& af.total_slashable == ValueRange(ts3 as u64, ts3 as u64)
                })
            }),
    {
        let (uix, ufound) = self.locate_user(user);
        if !ufound {
            return Err(ContractError::UnknownLienholder);
        }
        let ghost pre = *self;
        proof {
            lemma_user_ix_unique(pre, uix as int, user);
        }
        let (lix, lfound) = locate_lien(&self.users[uix].liens, lienholder);
        proof {
            if lfound {
                lemma_lien_at_ix(pre.users@[uix as int], lix as int);
            } else {
                if pre.users@[uix as int].has_lien(lienholder) {
                    let w = pre.users@[uix as int].lien_ix(lienholder);
                    assert(pre.users@[uix as int].liens@[w].lienholder != lienholder);
                }
            }
        }
        if !lfound {
            return Err(ContractError::UnknownLienholder);
        }
        // the user must have no in-flight operations
        let mut settled = self.users[uix].total_slashable.0 == self.users[uix].total_slashable.1;
        let mut j: usize = 0;
        while j < self.users[uix].liens.len()
            invariant
                j <= self.users@[uix as int].liens@.len(),
                uix < self.users@.len(),
                settled == (self.users@[uix as int].total_slashable.0 == self.users@[uix
                    as int].total_slashable.1 && forall|k: int|
                    0 <= k < j ==> (#[trigger] self.users@[uix as int].liens@[k]).amount.0
                        == self.users@[uix as int].liens@[k].amount.1),
            decreases self.users@[uix as int].liens@.len() - j,
        {
            if self.users[uix].liens[j].amount.0 != self.users[uix].liens[j].amount.1 {
                settled = false;
            }
            j = j + 1;
        }
        if !settled {
            return Err(ContractError::Locked);
        }
        if self.users[uix].liens[lix].amount.0 < slash_amount {
            return Err(ContractError::InsufficientLien);
        }
        let ghost a0 = pre.users@[uix as int];
        proof {
            assert(a0.settled());
            lemma_max_hi_ge(a0.liens@, lix as int);
        }
        let mut account = self.users.remove(uix);
        let new_coll = account.collateral - slash_amount;
        // the slashed lien and the slashable total take the direct hit
        let mut lien = account.liens.remove(lix);
        let dslash = mul_floor(slash_amount, lien.slashable);
        lien.amount.0 = lien.amount.0 - slash_amount;
        lien.amount.1 = lien.amount.1 - slash_amount;
        account.liens.insert(lix, lien);
        let red0 = if dslash > account.total_slashable.0 {
            account.total_slashable.0
        } else {
            dslash
        };
        account.total_slashable.0 = account.total_slashable.0 - red0;
        account.total_slashable.1 = account.total_slashable.1 - red0;
        proof {
            assert(account.liens@ =~= a0.liens@.update(lix as int, account.liens@[lix as int]));
        }
        let ghost a1 = account;
        // uniform repair: spread the remaining excess over all liens
        let mut sum_ppb: u128 = 0;
        let mut j: usize = 0;
        proof {
            assert(account.liens@.take(0) =~= Seq::<Lien>::empty());
        }
        while j < account.liens.len()
            invariant
                j <= account.liens@.len(),
                account.liens@ == a1.liens@,
                sum_ppb == seq_sum(account.liens@.take(j as int), w_lien_ppb()),
                sum_ppb <= j * 1_000_000_000int,
            decreases account.liens@.len() - j,
        {
            proof {
                assert(account.liens@.take(j + 1).drop_last() =~= account.liens@.take(j as int));
                assert(account.liens@.take(j + 1).last() == account.liens@[j as int]);
                assert((j + 1) * 1_000_000_000int == j * 1_000_000_000int + 1_000_000_000int)
                    by (nonlinear_arith);
                assert(j * 1_000_000_000int <= 0xffff_ffff_ffff_ffffint * 1_000_000_000int)
                    by (nonlinear_arith)
                    requires
                        0 <= j <= 0xffff_ffff_ffff_ffffint,
                {
                }
            }
            sum_ppb = sum_ppb + if account.liens[j].slashable.ppb > crate::ratio::RATIO_ONE {
                crate::ratio::RATIO_ONE as u128
            } else {
                account.liens[j].slashable.ppb as u128
            };
            j = j + 1;
        }
        proof {
            assert(account.liens@.take(account.liens@.len() as int) =~= account.liens@);
        }
        let mut d: u64 = 0;
        if account.total_slashable.1 > new_coll && sum_ppb > 0 {
            let excess = (account.total_slashable.1 - new_coll) as u128;
            proof {
                assert(excess * 1_000_000_000int <= 0xffff_ffff_ffff_ffffint
                    * 1_000_000_000int) by (nonlinear_arith)
                    requires
                        0 <= excess <= 0xffff_ffff_ffff_ffffint,
                {
                }
            }
            let d128 = crate::ratio::ceil_div(
                excess * (crate::ratio::RATIO_ONE as u128),
                sum_ppb,
            );
            d = if d128 > u64::MAX as u128 {
                u64::MAX
            } else {
                d128 as u64
            };
            let mut j: usize = 0;
            while j < account.liens.len()
                invariant
                    j <= account.liens@.len(),
                    account.liens@.len() == a1.liens@.len(),
                    account.user == a1.user,
                    account.collateral == a1.collateral,
                    forall|k: int|
                        0 <= k < a1.liens@.len() ==> (#[trigger] a1.liens@[k]).amount.0
                            == a1.liens@[k].amount.1 && a1.liens@[k].slashable.wf(),
                    forall|k: int|
                        0 <= k < a1.liens@.len() ==> (#[trigger] account.liens@[k]).lienholder
                            == a1.liens@[k].lienholder && account.liens@[k].slashable
                            == a1.liens@[k].slashable,
                    forall|k: int|
                        0 <= k < j ==> (#[trigger] account.liens@[k]).amount.0
                            == account.liens@[k].amount.1 && account.liens@[k].amount.1
                            <= a1.liens@[k].amount.1,
                    forall|k: int|
                        0 <= k < j ==> (#[trigger] account.liens@[k]) == spec_prop_lien(
                            a1.liens@[k],
                            d,
                        ),
                    forall|k: int|
                        j <= k < a1.liens@.len() ==> (#[trigger] account.liens@[k])
                            == a1.liens@[k],
                    account.total_slashable.0 == account.total_slashable.1,
                    account.total_slashable.1 <= a1.total_slashable.1,
                    account.total_slashable.0 == spec_prop_ts(
                        a1.liens@,
                        d,
                        a1.total_slashable.0 as int,
                        j as int,
                    ),
                decreases account.liens@.len() - j,
            {
                let ghost before = account.liens@;
                let mut l = account.liens.remove(j);
                let red = if d > l.amount.0 {
                    l.amount.0
                } else {
                    d
                };
                proof {
                    assert(a1.liens@[j as int].amount.0 == a1.liens@[j as int].amount.1);
                }
                l.amount.0 = l.amount.0 - red;
                l.amount.1 = l.amount.1 - red;
                let ds = mul_floor(red, l.slashable);
                account.liens.insert(j, l);
                let tred = if ds > account.total_slashable.0 {
                    account.total_slashable.0
                } else {
                    ds
                };
                account.total_slashable.0 = account.total_slashable.0 - tred;
                account.total_slashable.1 = account.total_slashable.1 - tred;
                proof {
                    assert(account.liens@ =~= before.update(j as int, account.liens@[j as int]));
                    assert(account.liens@[j as int] == spec_prop_lien(a1.liens@[j as int], d));
                }
                j = j + 1;
            }
        }
        let ghost a2 = account;
        // cap repair: no lien may exceed the reduced collateral
        let mut j: usize = 0;
        while j < account.liens.len()
            invariant
                j <= account.liens@.len(),
                account.liens@.len() == a2.liens@.len(),
                account.user == a2.user,
                account.collateral == a2.collateral,
                forall|k: int|
                    0 <= k < a2.liens@.len() ==> (#[trigger] a2.liens@[k]).amount.0
                        == a2.liens@[k].amount.1 && a2.liens@[k].slashable.wf(),
                forall|k: int|
                    0 <= k < a2.liens@.len() ==> (#[trigger] account.liens@[k]).lienholder
                        == a2.liens@[k].lienholder && account.liens@[k].slashable
                        == a2.liens@[k].slashable,
                forall|k: int|
                    0 <= k < j ==> (#[trigger] account.liens@[k]).amount.0
                        == account.liens@[k].amount.1 && account.liens@[k].amount.1
                        <= a2.liens@[k].amount.1 && account.liens@[k].amount.1 <= new_coll,
                forall|k: int|
                    0 <= k < j ==> (#[trigger] account.liens@[k]) == spec_cap_lien(
                        a2.liens@[k],
                        new_coll,
                    ),
                forall|k: int|
                    j <= k < a2.liens@.len() ==> (#[trigger] account.liens@[k]) == a2.liens@[k],
                account.total_slashable.0 == account.total_slashable.1,
                account.total_slashable.1 <= a2.total_slashable.1,
                account.total_slashable.0 == spec_cap_ts(
                    a2.liens@,
                    new_coll,
                    a2.total_slashable.0 as int,
                    j as int,
                ),
            decreases account.liens@.len() - j,
        {
            let ghost before = account.liens@;
            let mut l = account.liens.remove(j);
            let delta = if l.amount.1 > new_coll {
                l.amount.1 - new_coll
            } else {
                0
            };
            proof {
                assert(a2.liens@[j as int].amount.0 == a2.liens@[j as int].amount.1);
            }
            l.amount.0 = l.amount.0 - delta;
            l.amount.1 = l.amount.1 - delta;
            let ds = mul_floor(delta, l.slashable);
            account.liens.insert(j, l);
            let tred = if ds > account.total_slashable.0 {
                account.total_slashable.0
            } else {
                ds
            };
            account.total_slashable.0 = account.total_slashable.0 - tred;
            account.total_slashable.1 = account.total_slashable.1 - tred;
            proof {
                assert(account.liens@ =~= before.update(j as int, account.liens@[j as int]));
                assert(account.liens@[j as int] == spec_cap_lien(a2.liens@[j as int], new_coll));
            }
            j = j + 1;
        }
        account.collateral = new_coll;
        self.users.insert(uix, account);
        proof {
            let a = self.users@[uix as int];
            assert(self.users@ =~= pre.users@.update(uix as int, a));
            assert forall|i: int, k: int| 0 <= i < k < a.liens@.len()
                implies (#[trigger] a.liens@[i]).lienholder
                    < (#[trigger] a.liens@[k]).lienholder by {
                assert(a0.liens@[i].lienholder < a0.liens@[k].lienholder);
            }
            assert forall|m: int| 0 <= m < a.liens@.len()
                implies lien_wf(#[trigger] a.liens@[m], self.pending@, user) by {
                assert(lien_wf(a0.liens@[m], pre.pending@, user));
                assert(a0.liens@[m].amount.0 == a0.liens@[m].amount.1);
            }
            assert(a.wf(self.pending@));
            assert forall|m: int| 0 <= m < a0.liens@.len()
                implies (#[trigger] a.liens@[m]).lienholder == a0.liens@[m].lienholder
                    && a.liens@[m].slashable == a0.liens@[m].slashable by {
            }
            lemma_liens_cover_pointwise(a.liens@, a0.liens@);
            self.lemma_update_user_frame(pre, uix as int, user);
            assert forall|m: int| 0 <= m < a.liens@.len()
                implies (#[trigger] a.liens@[m]).amount.1 <= new_coll by {
            }
            lemma_max_hi_le(a.liens@, new_coll as int);
            // the exact outcome, stage by stage
            let l0 = a0.lien_at(lienholder);
            let dslash_g = spec_mul_floor(slash_amount, l0.slashable);
            let liens1 = a0.liens@.update(
                a0.lien_ix(lienholder),
                (Lien {
                    amount: ValueRange(
                        (l0.amount.0 - slash_amount) as u64,
                        (l0.amount.1 - slash_amount) as u64,
                    ),
                    ..l0
                }),
            );
            let ts1 = a0.total_slashable.0 - (if dslash_g > a0.total_slashable.0 {
                a0.total_slashable.0 as int
            } else {
                dslash_g
            });
            assert(a1.liens@ == liens1);
            assert(a1.total_slashable == ValueRange(ts1 as u64, ts1 as u64));
            let sum_g = seq_sum(liens1, w_lien_ppb());
            assert(sum_ppb == sum_g);
            let need_prop = ts1 > new_coll && sum_g > 0;
            let d_g: u64 = (if need_prop {
                let d128 = spec_ceil_div((ts1 - new_coll) * (RATIO_ONE as int), sum_g);
                if d128 > u64::MAX {
                    u64::MAX as int
                } else {
                    d128
                }
            } else {
                0
            }) as u64;
            assert(d == d_g);
            let liens2 = if need_prop {
                Seq::new(liens1.len(), (|k: int| spec_prop_lien(liens1[k], d_g)))
            } else {
                liens1
            };
            let ts2 = if need_prop {
                spec_prop_ts(liens1, d_g, ts1, liens1.len() as int)
            } else {
                ts1
            };
            assert(a2.liens@ =~= liens2);
            assert(a2.total_slashable == ValueRange(ts2 as u64, ts2 as u64));
            let liens3 = Seq::new(liens2.len(), (|k: int| spec_cap_lien(liens2[k], new_coll)));
            let ts3 = spec_cap_ts(liens2, new_coll, ts2, liens2.len() as int);
            assert(a.liens@ =~= liens3);
            assert(a.total_slashable == ValueRange(ts3 as u64, ts3 as u64));
        }
        Ok(())
    }

    /// The sum of the user's pending stake amounts in the journal.
    fn pending_user_amount(&self, user: u64) -> (s: u128)
        ensures
            s == seq_sum(self.pending@, w_user_amount(user)),
    {
        let ghost w = w_user_amount(user);
        proof {
            assert forall|i: int| 0 <= i < self.pending@.len() implies 0 <= w(
                #[trigger] self.pending@[i],
            ) <= u64::MAX by {
            }
        }
        let mut s: u128 = 0;
        let mut i: usize = 0;
        while i < self.pending.len()
            invariant
                i <= self.pending@.len(),
                s == seq_sum(self.pending@.take(i as int), w),
                w == w_user_amount(user),
                forall|j: int| 0 <= j < self.pending@.len() ==> 0 <= w(#[trigger] self.pending@[j]) <= u64::MAX,
            decreases self.pending@.len() - i,
        {
            proof {
                assert(self.pending@.take(i + 1).drop_last() =~= self.pending@.take(i as int));
                assert forall|j: int| 0 <= j < self.pending@.take(i + 1).len() implies 0 <= w(
                    #[trigger] self.pending@.take(i + 1)[j],
                ) <= u64::MAX by {
                    assert(self.pending@.take(i + 1)[j] == self.pending@[j]);
                }
                lemma_seq_sum_bound(self.pending@.take(i + 1), w, u64::MAX as int);
                assert((i + 1) * (u64::MAX as int) <= 0xffff_ffff_ffff_ffff_0000_0000_0000_0000int)
                    by (nonlinear_arith)
                    requires
                        i + 1 <= 0xffff_ffff_ffff_ffffint,
                {
                }
            }
            let t = self.pending[i];
            if t.user == user {
                match t.ty {
                    TxType::Stake => {
                        s = s + t.amount as u128;
                    }
                    TxType::Unstake => {
                    }
                }
            }
            i = i + 1;
        }
        proof {
            assert(self.pending@.take(self.pending@.len() as int) =~= self.pending@);
        }
        s
    }
}

} // verus!
