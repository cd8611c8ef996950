//! The vault's bonding, staking, journal and query behavior, driven the way
//! the contracts drive each other on chain.

use mesh_provider::error::ContractError;
use mesh_provider::extstaking::{ExtConfig, ExternalStakingContract};
use mesh_provider::range::ValueRange;
use mesh_provider::ratio::SlashRatio;
use mesh_provider::vault::{AccountResponse, VaultContract};

const OSMO: u64 = 1;
const STAR: u64 = 2;
const VAULT: u64 = 10;
const LOCAL: u64 = 11;
const CROSS: u64 = 21;
const CROSS2: u64 = 22;
const USER: u64 = 101;
const USER2: u64 = 102;
const VALIDATOR: u64 = 201;

fn new_vault() -> VaultContract {
    let mut vault = VaultContract::new(OSMO);
    vault.set_local_staking(LOCAL, SlashRatio::percent(10));
    vault
}

fn new_cross(slash_percent: u32) -> ExternalStakingContract {
    ExternalStakingContract::new(ExtConfig {
        denom: OSMO,
        rewards_denom: STAR,
        vault: VAULT,
        unbonding_period: 100,
        slash_ratio: SlashRatio::percent(slash_percent),
    })
}

fn account(vault: &VaultContract, user: u64) -> AccountResponse {
    vault.account(user)
}

#[test]
fn instantiation() {
    let vault = new_vault();
    assert_eq!(vault.config().denom, OSMO);
    let users = vault.all_accounts(false, None, None);
    assert_eq!(users.len(), 0);
}

#[test]
fn bonding() {
    let mut vault = new_vault();

    assert_eq!(
        account(&vault, USER),
        AccountResponse { denom: OSMO, bonded: 0, free: ValueRange(0, 0) }
    );
    assert_eq!(vault.account_claims(USER, None, None).len(), 0);

    // Bond some tokens
    vault.bond(USER, 100, OSMO).unwrap();
    assert_eq!(
        account(&vault, USER),
        AccountResponse { denom: OSMO, bonded: 100, free: ValueRange(100, 100) }
    );
    assert_eq!(vault.account_claims(USER, None, None).len(), 0);

    vault.bond(USER, 150, OSMO).unwrap();
    assert_eq!(
        account(&vault, USER),
        AccountResponse { denom: OSMO, bonded: 250, free: ValueRange(250, 250) }
    );

    // Unbond some tokens
    vault.unbond(USER, 200, OSMO).unwrap();
    assert_eq!(
        account(&vault, USER),
        AccountResponse { denom: OSMO, bonded: 50, free: ValueRange(50, 50) }
    );

    vault.unbond(USER, 20, OSMO).unwrap();
    assert_eq!(
        account(&vault, USER),
        AccountResponse { denom: OSMO, bonded: 30, free: ValueRange(30, 30) }
    );

    // Unbonding over bounded fails
    let err = vault.unbond(USER, 100, OSMO).unwrap_err();
    assert_eq!(err, ContractError::ClaimsLocked(ValueRange(30, 30)));
}

#[test]
fn bonding_rejects_wrong_denom() {
    let mut vault = new_vault();
    assert_eq!(
        vault.bond(USER, 100, STAR),
        Err(ContractError::UnexpectedDenom(OSMO))
    );
}

#[test]
fn stake_local() {
    let mut vault = new_vault();

    // Bond some tokens
    vault.bond(USER, 300, OSMO).unwrap();
    assert_eq!(
        account(&vault, USER),
        AccountResponse { denom: OSMO, bonded: 300, free: ValueRange(300, 300) }
    );

    // Staking locally
    vault.stake_local(USER, 100, OSMO).unwrap();
    assert_eq!(
        account(&vault, USER),
        AccountResponse { denom: OSMO, bonded: 300, free: ValueRange(200, 200) }
    );
    let claims = vault.account_claims(USER, None, None);
    assert_eq!(claims.len(), 1);
    assert_eq!(claims[0].lienholder, LOCAL);
    assert_eq!(claims[0].amount, ValueRange(100, 100));

    vault.stake_local(USER, 150, OSMO).unwrap();
    assert_eq!(
        account(&vault, USER),
        AccountResponse { denom: OSMO, bonded: 300, free: ValueRange(50, 50) }
    );
    let claims = vault.account_claims(USER, None, None);
    assert_eq!(claims[0].amount, ValueRange(250, 250));

    // Cannot stake over collateral
    let err = vault.stake_local(USER, 150, OSMO).unwrap_err();
    assert_eq!(err, ContractError::InsufficentBalance);

    // Cannot unbond used collateral
    let err = vault.unbond(USER, 100, OSMO).unwrap_err();
    assert_eq!(err, ContractError::ClaimsLocked(ValueRange(50, 50)));

    // Unstaking
    vault.release_local_stake(LOCAL, USER, 50, OSMO).unwrap();
    assert_eq!(
        account(&vault, USER),
        AccountResponse { denom: OSMO, bonded: 300, free: ValueRange(100, 100) }
    );
    let claims = vault.account_claims(USER, None, None);
    assert_eq!(claims[0].amount, ValueRange(200, 200));

    vault.release_local_stake(LOCAL, USER, 100, OSMO).unwrap();
    assert_eq!(
        account(&vault, USER),
        AccountResponse { denom: OSMO, bonded: 300, free: ValueRange(200, 200) }
    );
    let claims = vault.account_claims(USER, None, None);
    assert_eq!(claims[0].amount, ValueRange(100, 100));

    // Cannot unstake over the lien
    let err = vault.release_local_stake(LOCAL, USER, 200, OSMO).unwrap_err();
    assert_eq!(err, ContractError::InsufficientLien);
}

fn last_ext_tx(cross: &ExternalStakingContract) -> u64 {
    cross.all_pending_txs_desc(None, None)[0].id
}

fn last_vault_tx(vault: &VaultContract) -> u64 {
    vault.all_pending_txs_desc(None, None)[0].id
}

#[test]
fn stake_cross() {
    let mut vault = new_vault();
    let mut cross = new_cross(10);

    // Bond some tokens
    vault.bond(USER, 300, OSMO).unwrap();
    assert_eq!(
        account(&vault, USER),
        AccountResponse { denom: OSMO, bonded: 300, free: ValueRange(300, 300) }
    );

    // Staking remotely
    let tx = vault
        .stake_remote(USER, CROSS, SlashRatio::percent(10), 100, OSMO)
        .unwrap();
    cross
        .receive_virtual_stake(VAULT, USER, VALIDATOR, 100, tx, OSMO)
        .unwrap();

    assert_eq!(
        account(&vault, USER),
        AccountResponse { denom: OSMO, bonded: 300, free: ValueRange(200, 300) }
    );

    // The destination acknowledges: commit on both sides
    let ext_tx = last_ext_tx(&cross);
    cross.commit_stake(ext_tx).unwrap();
    vault.commit_tx(CROSS, tx).unwrap();

    assert_eq!(
        account(&vault, USER),
        AccountResponse { denom: OSMO, bonded: 300, free: ValueRange(200, 200) }
    );
    let claims = vault.account_claims(USER, None, None);
    assert_eq!(claims[0].lienholder, CROSS);
    assert_eq!(claims[0].amount, ValueRange(100, 100));

    // second stake remote
    let tx = vault
        .stake_remote(USER, CROSS, SlashRatio::percent(10), 150, OSMO)
        .unwrap();
    cross
        .receive_virtual_stake(VAULT, USER, VALIDATOR, 150, tx, OSMO)
        .unwrap();
    assert_eq!(
        account(&vault, USER),
        AccountResponse { denom: OSMO, bonded: 300, free: ValueRange(50, 200) }
    );
    let ext_tx = last_ext_tx(&cross);
    cross.commit_stake(ext_tx).unwrap();
    vault.commit_tx(CROSS, tx).unwrap();

    assert_eq!(
        account(&vault, USER),
        AccountResponse { denom: OSMO, bonded: 300, free: ValueRange(50, 50) }
    );
    let claims = vault.account_claims(USER, None, None);
    assert_eq!(claims[0].amount, ValueRange(250, 250));

    // Cannot stake over collateral
    let err = vault
        .stake_remote(USER, CROSS, SlashRatio::percent(10), 150, OSMO)
        .unwrap_err();
    assert_eq!(err, ContractError::InsufficentBalance);
    assert_eq!(
        account(&vault, USER),
        AccountResponse { denom: OSMO, bonded: 300, free: ValueRange(50, 50) }
    );

    // Cannot unbond used collateral
    let err = vault.unbond(USER, 100, OSMO).unwrap_err();
    assert_eq!(err, ContractError::ClaimsLocked(ValueRange(50, 50)));

    // Unstake does not free collateral on the vault right away
    let unstake_time = 100;
    cross.unstake(USER, VALIDATOR, 50, OSMO, unstake_time).unwrap();
    assert_eq!(
        account(&vault, USER),
        AccountResponse { denom: OSMO, bonded: 300, free: ValueRange(50, 50) }
    );

    // the destination acknowledges the unstake
    let tx_id = last_ext_tx(&cross);
    cross.commit_unstake(tx_id).unwrap();

    // No tokens are withdrawn before the unbonding period is over
    let released = cross.withdraw_unbonded(USER, 199).unwrap();
    assert_eq!(released, 0);
    assert_eq!(
        account(&vault, USER),
        AccountResponse { denom: OSMO, bonded: 300, free: ValueRange(50, 50) }
    );

    // After the unbonding period the user can withdraw unbonded tokens
    let released = cross.withdraw_unbonded(USER, 200).unwrap();
    assert_eq!(released, 50);
    vault.release_cross_stake(CROSS, USER, released, OSMO).unwrap();
    assert_eq!(
        account(&vault, USER),
        AccountResponse { denom: OSMO, bonded: 300, free: ValueRange(100, 100) }
    );
    let claims = vault.account_claims(USER, None, None);
    assert_eq!(claims[0].amount, ValueRange(200, 200));

    // Unstake and withdraw the rest of the way
    cross.unstake(USER, VALIDATOR, 100, OSMO, 200).unwrap();
    let tx_id = last_ext_tx(&cross);
    cross.commit_unstake(tx_id).unwrap();
    let released = cross.withdraw_unbonded(USER, 300).unwrap();
    assert_eq!(released, 100);
    vault.release_cross_stake(CROSS, USER, released, OSMO).unwrap();
    assert_eq!(
        account(&vault, USER),
        AccountResponse { denom: OSMO, bonded: 300, free: ValueRange(200, 200) }
    );
    let claims = vault.account_claims(USER, None, None);
    assert_eq!(claims[0].amount, ValueRange(100, 100));

    // Cannot unstake over the stake
    let err = cross.unstake(USER, VALIDATOR, 300, OSMO, 300).unwrap_err();
    assert_eq!(err, ContractError::NotEnoughStake(100));
}

#[test]
fn stake_cross_txs() {
    let mut vault = new_vault();

    // Bond some tokens
    vault.bond(USER, 300, OSMO).unwrap();
    vault.bond(USER2, 500, OSMO).unwrap();

    // No pending txs
    assert_eq!(vault.all_pending_txs_desc(None, None).len(), 0);
    // Can query all accounts
    assert_eq!(vault.all_accounts(false, None, None).len(), 2);

    // Staking remotely
    vault
        .stake_remote(USER, CROSS, SlashRatio::percent(10), 100, OSMO)
        .unwrap();
    assert_eq!(vault.all_pending_txs_desc(None, None).len(), 1);
    let first_tx = last_vault_tx(&vault);

    // Same user can stake while pending tx
    vault
        .stake_remote(USER, CROSS, SlashRatio::percent(10), 50, OSMO)
        .unwrap();
    let second_tx = last_vault_tx(&vault);

    // Other user can as well
    vault
        .stake_remote(USER2, CROSS, SlashRatio::percent(10), 100, OSMO)
        .unwrap();

    // Three pending txs
    assert_eq!(vault.all_pending_txs_desc(None, None).len(), 3);

    // Last tx commit call
    let last_tx = last_vault_tx(&vault);
    vault.commit_tx(CROSS, last_tx).unwrap();

    // Two pending txs now
    let txs = vault.all_pending_txs_desc(None, None);
    assert_eq!(txs.len(), 2);
    // First tx (old one) is still pending
    assert_eq!(txs[1].id, first_tx);
    // Second tx (recent one) is still pending
    assert_eq!(txs[0].id, second_tx);

    // Can query account while pending
    assert_eq!(
        account(&vault, USER),
        AccountResponse { denom: OSMO, bonded: 300, free: ValueRange(150, 300) }
    );
    // Can query claims, and value ranges are reported
    let claims = vault.account_claims(USER, None, None);
    assert_eq!(claims.len(), 1);
    assert_eq!(claims[0].lienholder, CROSS);
    assert_eq!(claims[0].amount, ValueRange(0, 150));

    // Can query all accounts, and value ranges are reported
    let accounts = vault.all_accounts(false, None, None);
    assert_eq!(accounts.len(), 2);
    assert_eq!(accounts[0].user, USER);
    assert_eq!(accounts[0].account.free, ValueRange(150, 300));
    assert_eq!(accounts[1].user, USER2);
    assert_eq!(accounts[1].account.free, ValueRange(400, 400));

    // Can query the other account as well
    assert_eq!(
        account(&vault, USER2),
        AccountResponse { denom: OSMO, bonded: 500, free: ValueRange(400, 400) }
    );
    let claims = vault.account_claims(USER2, None, None);
    assert_eq!(claims[0].amount, ValueRange(100, 100));

    // Commit first tx
    vault.commit_tx(CROSS, first_tx).unwrap();
    assert_eq!(
        account(&vault, USER),
        AccountResponse { denom: OSMO, bonded: 300, free: ValueRange(150, 200) }
    );
    // The other tx is still pending, and that is reflected in the range
    let claims = vault.account_claims(USER, None, None);
    assert_eq!(claims[0].amount, ValueRange(100, 150));
}

#[test]
fn stake_cross_rollback_tx() {
    let mut vault = new_vault();

    // Bond some tokens
    vault.bond(USER, 300, OSMO).unwrap();

    // Staking remotely
    vault
        .stake_remote(USER, CROSS, SlashRatio::percent(10), 100, OSMO)
        .unwrap();
    assert_eq!(vault.all_pending_txs_desc(None, None).len(), 1);

    // Rollback tx
    let last_tx = last_vault_tx(&vault);
    vault.rollback_tx(CROSS, last_tx).unwrap();

    // No pending txs
    assert_eq!(vault.all_pending_txs_desc(None, None).len(), 0);

    // Funds are restored
    assert_eq!(
        account(&vault, USER),
        AccountResponse { denom: OSMO, bonded: 300, free: ValueRange(300, 300) }
    );
    // The lien entry remains, at zero
    let claims = vault.account_claims(USER, None, None);
    assert_eq!(claims.len(), 1);
    assert_eq!(claims[0].lienholder, CROSS);
    assert_eq!(claims[0].amount, ValueRange(0, 0));
}

#[test]
fn rollback_wrong_sender_fails() {
    let mut vault = new_vault();
    vault.bond(USER, 300, OSMO).unwrap();
    let tx = vault
        .stake_remote(USER, CROSS, SlashRatio::percent(10), 100, OSMO)
        .unwrap();
    assert_eq!(
        vault.rollback_tx(CROSS2, tx),
        Err(ContractError::WrongContractTx(tx, CROSS2))
    );
    assert_eq!(
        vault.commit_tx(CROSS2, tx),
        Err(ContractError::WrongContractTx(tx, CROSS2))
    );
    assert_eq!(vault.commit_tx(CROSS, 999), Err(ContractError::UnknownTx(999)));
}

#[test]
fn multiple_stakes() {
    let mut vault = new_vault();
    let mut cross1 = new_cross(60);
    let mut cross2 = new_cross(60);

    vault.bond(USER, 1000, OSMO).unwrap();

    // Stake properly, highest collateral usage is the local 300 lien
    vault.stake_local(USER, 300, OSMO).unwrap();

    for (cross, addr, amount) in [(&mut cross1, CROSS, 200u64), (&mut cross2, CROSS2, 100)] {
        let tx = vault
            .stake_remote(USER, addr, SlashRatio::percent(60), amount, OSMO)
            .unwrap();
        cross
            .receive_virtual_stake(VAULT, USER, VALIDATOR, amount, tx, OSMO)
            .unwrap();
        let ext_tx = last_ext_tx(cross);
        cross.commit_stake(ext_tx).unwrap();
        vault.commit_tx(addr, tx).unwrap();
    }

    assert_eq!(
        account(&vault, USER),
        AccountResponse { denom: OSMO, bonded: 1000, free: ValueRange(700, 700) }
    );
    let claims = vault.account_claims(USER, None, None);
    assert_eq!(claims.len(), 3);
    assert_eq!(claims[0].amount, ValueRange(300, 300));
    assert_eq!(claims[1].amount, ValueRange(200, 200));
    assert_eq!(claims[2].amount, ValueRange(100, 100));

    // The slashable total, not the liens, now limits usage:
    // 240 + 300 + 30 of max slash once both liens grow
    for (cross, addr, amount) in [(&mut cross1, CROSS, 200u64), (&mut cross2, CROSS2, 400)] {
        let tx = vault
            .stake_remote(USER, addr, SlashRatio::percent(60), amount, OSMO)
            .unwrap();
        cross
            .receive_virtual_stake(VAULT, USER, VALIDATOR, amount, tx, OSMO)
            .unwrap();
        let ext_tx = last_ext_tx(cross);
        cross.commit_stake(ext_tx).unwrap();
        vault.commit_tx(addr, tx).unwrap();
    }

    assert_eq!(
        account(&vault, USER),
        AccountResponse { denom: OSMO, bonded: 1000, free: ValueRange(430, 430) }
    );
    let claims = vault.account_claims(USER, None, None);
    assert_eq!(claims[0].amount, ValueRange(300, 300));
    assert_eq!(claims[1].amount, ValueRange(400, 400));
    assert_eq!(claims[2].amount, ValueRange(500, 500));

    // Another 500 on the first destination still fits; 400 more on the
    // second would push the slashable total over the collateral and fails
    let tx = vault
        .stake_remote(USER, CROSS, SlashRatio::percent(60), 500, OSMO)
        .unwrap();
    cross1
        .receive_virtual_stake(VAULT, USER, VALIDATOR, 500, tx, OSMO)
        .unwrap();
    let ext_tx = last_ext_tx(&cross1);
    cross1.commit_stake(ext_tx).unwrap();
    vault.commit_tx(CROSS, tx).unwrap();

    let err = vault
        .stake_remote(USER, CROSS2, SlashRatio::percent(60), 400, OSMO)
        .unwrap_err();
    assert_eq!(err, ContractError::InsufficentBalance);
}

#[test]
fn all_users_fetching() {
    let mut vault = new_vault();

    // No users should show up no matter the collateral flag
    assert_eq!(vault.all_accounts(false, None, None).len(), 0);
    assert_eq!(vault.all_accounts(true, None, None).len(), 0);

    // When a user bonds some collateral, they are visible
    vault.bond(USER, 100, OSMO).unwrap();
    let accounts = vault.all_accounts(false, None, None);
    assert_eq!(accounts.len(), 1);
    assert_eq!(accounts[0].user, USER);
    assert_eq!(accounts[0].account.bonded, 100);
    assert_eq!(vault.all_accounts(true, None, None).len(), 1);

    // Second user bonds - we want to see both
    vault.bond(USER2, 200, OSMO).unwrap();
    let accounts = vault.all_accounts(false, None, None);
    assert_eq!(accounts.len(), 2);
    assert_eq!(accounts[1].user, USER2);
    assert_eq!(accounts[1].account.bonded, 200);

    // After unbonding some, but not all, collateral the user stays visible
    vault.unbond(USER, 50, OSMO).unwrap();
    let accounts = vault.all_accounts(false, None, None);
    assert_eq!(accounts[0].account.bonded, 50);
    assert_eq!(vault.all_accounts(true, None, None).len(), 2);

    // Unbonding all collateral hides the user when the flag is set
    vault.unbond(USER2, 200, OSMO).unwrap();
    let accounts = vault.all_accounts(false, None, None);
    assert_eq!(accounts.len(), 2);
    assert_eq!(accounts[1].account.bonded, 0);
    let accounts = vault.all_accounts(true, None, None);
    assert_eq!(accounts.len(), 1);
    assert_eq!(accounts[0].user, USER);
}

#[test]
fn account_claims_paginate() {
    let mut vault = new_vault();
    vault.bond(USER, 1000, OSMO).unwrap();
    vault.stake_local(USER, 50, OSMO).unwrap();
    for (addr, amount) in [(CROSS, 60u64), (CROSS2, 70)] {
        let tx = vault
            .stake_remote(USER, addr, SlashRatio::percent(10), amount, OSMO)
            .unwrap();
        vault.commit_tx(addr, tx).unwrap();
    }
    let all = vault.account_claims(USER, None, None);
    assert_eq!(all.len(), 3);
    assert_eq!(all[0].lienholder, LOCAL);
    assert_eq!(all[1].lienholder, CROSS);
    assert_eq!(all[2].lienholder, CROSS2);

    // start_after is exclusive, and pages continue where the last ended
    let page = vault.account_claims(USER, Some(LOCAL), None);
    assert_eq!(page.len(), 2);
    assert_eq!(page[0].lienholder, CROSS);
    let page = vault.account_claims(USER, Some(CROSS2), None);
    assert_eq!(page.len(), 0);
}

#[test]
fn local_only_scenario() {
    let mut vault = new_vault();
    vault.bond(USER, 300, OSMO).unwrap();
    vault.stake_local(USER, 100, OSMO).unwrap();
    assert_eq!(
        account(&vault, USER),
        AccountResponse { denom: OSMO, bonded: 300, free: ValueRange(200, 200) }
    );
    let claims = vault.account_claims(USER, None, None);
    assert_eq!(claims.len(), 1);
    assert_eq!(claims[0].lienholder, LOCAL);
    assert_eq!(claims[0].amount, ValueRange(100, 100));

    // the local collaborator returns half of it
    vault.release_local_stake(LOCAL, USER, 50, OSMO).unwrap();
    assert_eq!(
        account(&vault, USER),
        AccountResponse { denom: OSMO, bonded: 300, free: ValueRange(250, 250) }
    );
    let claims = vault.account_claims(USER, None, None);
    assert_eq!(claims[0].amount, ValueRange(50, 50));
}

#[test]
fn collateral_rule_on_prepare() {
    // A user whose whole collateral backs the local lien cannot open even
    // the smallest cross-chain stake
    let mut vault = new_vault();
    vault.bond(USER, 300, OSMO).unwrap();
    vault.stake_local(USER, 300, OSMO).unwrap();
    let err = vault
        .stake_remote(USER, CROSS, SlashRatio::percent(10), 1, OSMO)
        .unwrap_err();
    assert_eq!(err, ContractError::InsufficentBalance);
}
