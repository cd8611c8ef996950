//! Reward distribution, unbonding round trips, the validator registry, the
//! native-staking router and its proxies.

use mesh_provider::error::ContractError;
use mesh_provider::extstaking::{ExtConfig, ExternalStakingContract};
use mesh_provider::nativestaking::{NativeStakingContract, StakeAction};
use mesh_provider::packet::{PacketCoin, ProviderPacket};
use mesh_provider::pages::clamp_page_limit;
use mesh_provider::proxy::{NativeStakingProxyContract, ProxyConfig};
use mesh_provider::range::ValueRange;
use mesh_provider::ratio::{mul_floor, SlashRatio};
use mesh_provider::valset::ValidatorSet;
use mesh_provider::vault::VaultContract;

const OSMO: u64 = 1;
const STAR: u64 = 2;
const VAULT: u64 = 10;
const LOCAL: u64 = 11;
const CROSS: u64 = 21;
const USER_A: u64 = 101;
const USER_B: u64 = 102;
const VAL: u64 = 201;
const VAL2: u64 = 202;

fn new_cross(slash_percent: u32) -> ExternalStakingContract {
    ExternalStakingContract::new(ExtConfig {
        denom: OSMO,
        rewards_denom: STAR,
        vault: VAULT,
        unbonding_period: 100,
        slash_ratio: SlashRatio::percent(slash_percent),
    })
}

fn give_stake(cross: &mut ExternalStakingContract, user: u64, validator: u64, amount: u64, tx: u64) {
    cross
        .receive_virtual_stake(VAULT, user, validator, amount, tx, OSMO)
        .unwrap();
    cross.commit_stake(tx).unwrap();
}

#[test]
fn reward_distribution() {
    // two stakers (a:100, b:300) on one validator; distribute 400 rewards
    let mut cross = new_cross(10);
    give_stake(&mut cross, USER_A, VAL, 100, 1);
    give_stake(&mut cross, USER_B, VAL, 300, 2);

    cross.distribute_rewards(VAL, 400, STAR).unwrap();

    assert_eq!(cross.pending_rewards(USER_A, VAL), 100);
    assert_eq!(cross.pending_rewards(USER_B, VAL), 300);

    let got_a = cross.withdraw_rewards(USER_A, VAL).unwrap();
    let got_b = cross.withdraw_rewards(USER_B, VAL).unwrap();
    assert_eq!(got_a, 100);
    assert_eq!(got_b, 300);

    // nothing left to withdraw until the next distribution
    assert_eq!(cross.pending_rewards(USER_A, VAL), 0);
    assert_eq!(cross.withdraw_rewards(USER_B, VAL).unwrap(), 0);

    // a second distribution accrues on top
    cross.distribute_rewards(VAL, 40, STAR).unwrap();
    assert_eq!(cross.pending_rewards(USER_A, VAL), 10);
    assert_eq!(cross.pending_rewards(USER_B, VAL), 30);
}

#[test]
fn reward_leftover_carries_forward() {
    // 7 tokens over 400 of stake leave a sub-share remainder; nothing is
    // lost: the remainder joins the next distribution
    let mut cross = new_cross(10);
    give_stake(&mut cross, USER_A, VAL, 100, 1);
    give_stake(&mut cross, USER_B, VAL, 300, 2);

    cross.distribute_rewards(VAL, 7, STAR).unwrap();
    let a1 = cross.pending_rewards(USER_A, VAL);
    let b1 = cross.pending_rewards(USER_B, VAL);
    assert_eq!(a1, 1);
    assert_eq!(b1, 5);

    cross.distribute_rewards(VAL, 393, STAR).unwrap();
    assert_eq!(cross.pending_rewards(USER_A, VAL), 100);
    assert_eq!(cross.pending_rewards(USER_B, VAL), 300);
}

#[test]
fn sole_staker_gets_whole_distribution() {
    let mut cross = new_cross(10);
    give_stake(&mut cross, USER_A, VAL, 100, 1);
    cross.distribute_rewards(VAL, 50, STAR).unwrap();
    assert_eq!(cross.withdraw_rewards(USER_A, VAL).unwrap(), 50);
}

#[test]
fn zero_stake_distribution_rejected() {
    let mut cross = new_cross(10);
    assert_eq!(
        cross.distribute_rewards(VAL, 400, STAR),
        Err(ContractError::ZeroStake)
    );
    assert_eq!(
        cross.distribute_rewards(VAL, 400, OSMO),
        Err(ContractError::InvalidDenom(STAR))
    );
}

#[test]
fn unstake_of_exact_stake_accepted() {
    let mut cross = new_cross(10);
    give_stake(&mut cross, USER_A, VAL, 100, 1);
    cross.unstake(USER_A, VAL, 100, OSMO, 0).unwrap();
    assert_eq!(cross.stake(USER_A, VAL).stake, ValueRange(0, 0));
    let err = cross.unstake(USER_A, VAL, 1, OSMO, 0).unwrap_err();
    assert_eq!(err, ContractError::Locked);
}

#[test]
fn full_round_trip_restores_vault() {
    // stake remotely, commit, unstake the same amount, commit, wait out the
    // unbonding period, withdraw: collateral and liens return to the
    // pre-stake values
    let mut vault = VaultContract::new(OSMO);
    vault.set_local_staking(LOCAL, SlashRatio::percent(10));
    let mut cross = new_cross(10);

    vault.bond(USER_A, 300, OSMO).unwrap();
    let before = vault.account(USER_A);

    let tx = vault
        .stake_remote(USER_A, CROSS, SlashRatio::percent(10), 100, OSMO)
        .unwrap();
    cross
        .receive_virtual_stake(VAULT, USER_A, VAL, 100, tx, OSMO)
        .unwrap();
    cross.commit_stake(tx).unwrap();
    vault.commit_tx(CROSS, tx).unwrap();
    assert_eq!(vault.account(USER_A).free, ValueRange(200, 200));

    cross.unstake(USER_A, VAL, 100, OSMO, 1000).unwrap();
    let unstake_tx = cross.all_pending_txs_desc(None, None)[0].id;
    cross.commit_unstake(unstake_tx).unwrap();

    assert_eq!(cross.withdraw_unbonded(USER_A, 1099).unwrap(), 0);
    let released = cross.withdraw_unbonded(USER_A, 1100).unwrap();
    assert_eq!(released, 100);
    vault.release_cross_stake(CROSS, USER_A, released, OSMO).unwrap();

    let after = vault.account(USER_A);
    assert_eq!(after, before);
    assert_eq!(after.bonded, 300);
    assert_eq!(after.free, ValueRange(300, 300));
    assert_eq!(vault.all_pending_txs_desc(None, None).len(), 0);
}

#[test]
fn rollback_stake_leaves_state_untouched() {
    let mut cross = new_cross(10);
    give_stake(&mut cross, USER_A, VAL, 100, 1);
    cross
        .receive_virtual_stake(VAULT, USER_A, VAL, 50, 7, OSMO)
        .unwrap();
    assert_eq!(cross.stake(USER_A, VAL).stake, ValueRange(100, 150));
    cross.rollback_stake(7).unwrap();
    assert_eq!(cross.stake(USER_A, VAL).stake, ValueRange(100, 100));
    assert_eq!(cross.all_pending_txs_desc(None, None).len(), 0);
}

#[test]
fn rollback_unstake_restores_stake() {
    let mut cross = new_cross(10);
    give_stake(&mut cross, USER_A, VAL, 100, 1);
    cross.unstake(USER_A, VAL, 40, OSMO, 0).unwrap();
    let tx = cross.all_pending_txs_desc(None, None)[0].id;
    assert_eq!(cross.stake(USER_A, VAL).stake, ValueRange(60, 60));
    cross.rollback_unstake(tx).unwrap();
    assert_eq!(cross.stake(USER_A, VAL).stake, ValueRange(100, 100));
    assert_eq!(cross.stake(USER_A, VAL).pending_unbonds.len(), 0);
    // the restored stake still earns rewards exactly
    cross.distribute_rewards(VAL, 10, STAR).unwrap();
    assert_eq!(cross.pending_rewards(USER_A, VAL), 10);
}

#[test]
fn receive_virtual_stake_guards() {
    let mut cross = new_cross(10);
    assert_eq!(
        cross.receive_virtual_stake(99, USER_A, VAL, 10, 1, OSMO),
        Err(ContractError::Unauthorized)
    );
    assert_eq!(
        cross.receive_virtual_stake(VAULT, USER_A, VAL, 10, 1, STAR),
        Err(ContractError::InvalidDenom(OSMO))
    );
    cross
        .receive_virtual_stake(VAULT, USER_A, VAL, 10, 1, OSMO)
        .unwrap();
    // a second write on the same pair must serialize
    assert_eq!(
        cross.receive_virtual_stake(VAULT, USER_A, VAL, 10, 2, OSMO),
        Err(ContractError::Locked)
    );
    // a duplicate id is refused even on another pair
    assert_eq!(
        cross.receive_virtual_stake(VAULT, USER_B, VAL, 10, 1, OSMO),
        Err(ContractError::Locked)
    );
}

#[test]
fn ext_slashing_truncates_per_stake() {
    let mut cross = new_cross(10);
    give_stake(&mut cross, USER_A, VAL, 105, 1);
    give_stake(&mut cross, USER_B, VAL, 9, 2);
    let infos = cross.handle_slashing(VAL);
    assert_eq!(infos.len(), 2);
    assert_eq!(infos[0].slash, 10);
    assert_eq!(infos[1].slash, 0);
    assert_eq!(cross.stake(USER_A, VAL).stake, ValueRange(95, 95));
    assert_eq!(cross.stake(USER_B, VAL).stake, ValueRange(9, 9));
}

#[test]
fn validator_set_lifecycle() {
    let mut vals = ValidatorSet::new();
    vals.add_validator(VAL, 7, 100, 1000);
    vals.add_validator(VAL2, 8, 120, 1200);
    assert!(vals.is_active(VAL));
    assert_eq!(vals.list_active(None, None).len(), 2);

    vals.remove_validator(VAL);
    assert!(!vals.is_active(VAL));
    let active = vals.list_active(None, None);
    assert_eq!(active.len(), 1);
    assert_eq!(active[0].validator, VAL2);

    // a removed validator can come back
    vals.add_validator(VAL, 9, 130, 1300);
    assert!(vals.is_active(VAL));

    // a tombstoned one cannot
    vals.tombstone_validator(VAL);
    assert!(!vals.is_active(VAL));
    vals.add_validator(VAL, 9, 140, 1400);
    assert!(!vals.is_active(VAL));
    assert_eq!(vals.list_active(None, None).len(), 1);

    // pagination is exclusive in start_after
    assert_eq!(vals.list_active(Some(VAL), None).len(), 1);
    assert_eq!(vals.list_active(Some(VAL2), None).len(), 0);
}

#[test]
fn page_limit_clamping() {
    assert_eq!(clamp_page_limit(None), 10);
    assert_eq!(clamp_page_limit(Some(0)), 10);
    assert_eq!(clamp_page_limit(Some(5)), 10);
    assert_eq!(clamp_page_limit(Some(17)), 17);
    assert_eq!(clamp_page_limit(Some(30)), 30);
    assert_eq!(clamp_page_limit(Some(50)), 30);
}

#[test]
fn native_staking_routes_stakes() {
    let mut native = NativeStakingContract::new(OSMO, 42, VAULT);
    assert_eq!(native.max_slash().max_slash, SlashRatio::percent(10));

    // only the vault may forward stakes
    assert_eq!(
        native.receive_stake(99, USER_A, VAL, 100, OSMO),
        Err(ContractError::Unauthorized)
    );
    // the first stake instantiates a proxy
    assert_eq!(
        native.receive_stake(VAULT, USER_A, VAL, 100, OSMO),
        Ok(StakeAction::Instantiate { owner: USER_A, validator: VAL })
    );
    native.register_proxy(USER_A, 55).unwrap();
    // later stakes forward to it
    assert_eq!(
        native.receive_stake(VAULT, USER_A, VAL, 60, OSMO),
        Ok(StakeAction::Forward { proxy: 55, validator: VAL })
    );
    assert_eq!(native.proxy_by_owner(USER_A), Ok(55));
    assert_eq!(native.owner_by_proxy(55), Ok(USER_A));
    // released tokens route back to the owner
    assert_eq!(native.release_proxy_stake(55, 30, OSMO), Ok(USER_A));
    assert_eq!(
        native.release_proxy_stake(56, 30, OSMO),
        Err(ContractError::Unauthorized)
    );
}

#[test]
fn proxy_delegation_lifecycle() {
    let mut proxy = NativeStakingProxyContract::new(ProxyConfig {
        denom: OSMO,
        parent: LOCAL,
        owner: USER_A,
        unbonding_period: 100,
    });
    proxy.stake(LOCAL, VAL, 100, OSMO).unwrap();
    proxy.stake(LOCAL, VAL2, 40, OSMO).unwrap();
    assert_eq!(
        proxy.stake(99, VAL, 10, OSMO),
        Err(ContractError::Unauthorized)
    );

    // restake moves between validators
    proxy.restake(USER_A, VAL, VAL2, 30, OSMO).unwrap();
    assert_eq!(
        proxy.restake(USER_A, VAL, VAL2, 200, OSMO),
        Err(ContractError::InsufficientDelegation(VAL, 70))
    );

    // unstake queues an unbond maturing after the period
    proxy.unstake(USER_A, VAL2, 50, OSMO, 1000).unwrap();
    assert_eq!(proxy.release_unbonded(USER_A, 1099), Ok(0));
    assert_eq!(proxy.release_unbonded(USER_A, 1100), Ok(50));
    assert_eq!(proxy.release_unbonded(USER_A, 1101), Ok(0));

    // rewards touch the validators that still hold a delegation
    let vals = proxy.reward_validators();
    assert_eq!(vals, vec![VAL, VAL2]);
}

#[test]
fn provider_packet_carries_tx_id() {
    let p = ProviderPacket::Stake {
        validator: String::from("valoper1"),
        stake: PacketCoin { denom: String::from("uosmo"), amount: 100 },
        tx_id: 7,
    };
    assert_eq!(p.tx_id(), 7);
    let u = ProviderPacket::Unstake {
        validator: String::from("valoper1"),
        unstake: PacketCoin { denom: String::from("uosmo"), amount: 40 },
        tx_id: 9,
    };
    assert_eq!(u.tx_id(), 9);
}

#[test]
fn stakes_query_pages_by_validator() {
    let mut cross = new_cross(10);
    give_stake(&mut cross, USER_A, VAL, 100, 1);
    give_stake(&mut cross, USER_A, VAL2, 40, 2);
    give_stake(&mut cross, USER_B, VAL, 300, 3);

    let all = cross.stakes(USER_A, None, None);
    assert_eq!(all.len(), 2);
    assert_eq!(all[0].validator, VAL);
    assert_eq!(all[0].stake, ValueRange(100, 100));
    assert_eq!(all[1].validator, VAL2);

    let page = cross.stakes(USER_A, Some(VAL), None);
    assert_eq!(page.len(), 1);
    assert_eq!(page[0].validator, VAL2);
    assert_eq!(cross.stakes(USER_B, None, None).len(), 1);
}

#[test]
fn users_query_deduplicates() {
    let mut cross = new_cross(10);
    give_stake(&mut cross, USER_A, VAL, 100, 1);
    give_stake(&mut cross, USER_A, VAL2, 40, 2);
    give_stake(&mut cross, USER_B, VAL, 300, 3);
    assert_eq!(cross.users(None, None), vec![USER_A, USER_B]);
    assert_eq!(cross.users(Some(USER_A), None), vec![USER_B]);
    assert_eq!(cross.users(Some(USER_B), None).len(), 0);
}

#[test]
fn vault_slash_requires_settled_pair() {
    let mut vault = VaultContract::new(OSMO);
    vault.set_local_staking(LOCAL, SlashRatio::percent(10));
    vault.bond(USER_A, 300, OSMO).unwrap();
    vault
        .stake_remote(USER_A, CROSS, SlashRatio::percent(10), 100, OSMO)
        .unwrap();
    // with the stake still in flight the user cannot be slashed
    assert_eq!(vault.slash(USER_A, CROSS, 10), Err(ContractError::Locked));
    // and unknown lienholders are rejected
    assert_eq!(vault.slash(USER_A, 77, 10), Err(ContractError::UnknownLienholder));
}

#[test]
fn claim_query_returns_single_lien() {
    let mut vault = VaultContract::new(OSMO);
    vault.set_local_staking(LOCAL, SlashRatio::percent(10));
    vault.bond(USER_A, 300, OSMO).unwrap();
    vault.stake_local(USER_A, 120, OSMO).unwrap();
    let lien = vault.claim(USER_A, LOCAL).unwrap();
    assert_eq!(lien.amount, ValueRange(120, 120));
    assert_eq!(lien.slashable, SlashRatio::percent(10));
    assert_eq!(
        vault.claim(USER_A, CROSS),
        Err(ContractError::UnknownLienholder)
    );
}

#[test]
fn mul_floor_truncates() {
    assert_eq!(mul_floor(100, SlashRatio::percent(10)), 10);
    assert_eq!(mul_floor(105, SlashRatio::percent(10)), 10);
    assert_eq!(mul_floor(9, SlashRatio::percent(10)), 0);
    assert_eq!(mul_floor(200, SlashRatio::percent(50)), 100);
    assert_eq!(mul_floor(35, SlashRatio::percent(100)), 35);
    assert_eq!(mul_floor(35, SlashRatio::zero()), 0);
}
