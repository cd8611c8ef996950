//! Cross-chain slashing propagated from the external-staking side into the
//! vault's liens and collateral.

use mesh_provider::extstaking::{ExtConfig, ExternalStakingContract};
use mesh_provider::range::ValueRange;
use mesh_provider::ratio::SlashRatio;
use mesh_provider::vault::VaultContract;

const OSMO: u64 = 1;
const STAR: u64 = 2;
const VAULT: u64 = 10;
const LOCAL: u64 = 11;
const CROSS1: u64 = 21;
const CROSS2: u64 = 22;
const CROSS3: u64 = 23;
const USER: u64 = 101;
const VAL1: u64 = 201;
const VAL2: u64 = 202;
const VAL3: u64 = 203;
const VAL4: u64 = 204;

fn setup(slash_percent: u32) -> (VaultContract, ExternalStakingContract) {
    let mut vault = VaultContract::new(OSMO);
    vault.set_local_staking(LOCAL, SlashRatio::percent(10));
    (vault, new_cross(slash_percent))
}

fn new_cross(slash_percent: u32) -> ExternalStakingContract {
    ExternalStakingContract::new(ExtConfig {
        denom: OSMO,
        rewards_denom: STAR,
        vault: VAULT,
        unbonding_period: 100,
        slash_ratio: SlashRatio::percent(slash_percent),
    })
}

fn stake_remotely(
    vault: &mut VaultContract,
    cross: &mut ExternalStakingContract,
    cross_addr: u64,
    user: u64,
    validators: &[u64],
    amounts: &[u64],
) {
    for (validator, amount) in validators.iter().zip(amounts.iter()) {
        let tx = vault
            .stake_remote(user, cross_addr, SlashRatio::percent(10), *amount, OSMO)
            .unwrap();
        cross
            .receive_virtual_stake(VAULT, user, *validator, *amount, tx, OSMO)
            .unwrap();
        let ext_tx = cross.all_pending_txs_desc(None, None)[0].id;
        cross.commit_stake(ext_tx).unwrap();
        vault.commit_tx(cross_addr, tx).unwrap();
    }
}

fn slash(vault: &mut VaultContract, cross: &mut ExternalStakingContract, cross_addr: u64, validator: u64) {
    let infos = cross.handle_slashing(validator);
    for info in infos {
        vault.slash(info.user, cross_addr, info.slash).unwrap();
    }
}

#[test]
fn cross_slash_scenario_1() {
    // The slashed delegator has free collateral on the vault
    let (mut vault, mut cross) = setup(10);
    vault.bond(USER, 200, OSMO).unwrap();
    vault.stake_local(USER, 190, OSMO).unwrap();
    stake_remotely(&mut vault, &mut cross, CROSS1, USER, &[VAL1, VAL2], &[100, 50]);

    let acc = vault.account(USER);
    assert_eq!(acc.bonded, 200);
    assert_eq!(acc.free, ValueRange(10, 10));
    let claims = vault.account_claims(USER, None, None);
    assert_eq!(claims[0].amount, ValueRange(190, 190));
    assert_eq!(claims[1].amount, ValueRange(150, 150));

    let details = vault.account_details(USER);
    assert_eq!(details.max_lien, ValueRange(190, 190));
    assert_eq!(details.total_slashable, ValueRange(34, 34));
    assert_eq!(details.bonded, 200);
    assert_eq!(details.free, ValueRange(10, 10));

    // Validator 1 is slashed
    slash(&mut vault, &mut cross, CROSS1, VAL1);

    let claims = vault.account_claims(USER, None, None);
    assert_eq!(claims[0].amount, ValueRange(190, 190));
    assert_eq!(claims[1].amount, ValueRange(140, 140));

    let details = vault.account_details(USER);
    assert_eq!(details.max_lien, ValueRange(190, 190));
    assert_eq!(details.total_slashable, ValueRange(33, 33));
    assert_eq!(details.bonded, 190);
    assert_eq!(details.free, ValueRange(0, 0));
}

#[test]
fn cross_slash_scenario_2() {
    // The slashed delegator has no free collateral on the vault.  The
    // collateral rule demands headroom when a cross-chain stake is opened,
    // so the fully-used state is reached by bonding extra collateral first
    // and unbonding exactly the free remainder afterwards.
    let (mut vault, mut cross) = setup(10);
    vault.bond(USER, 300, OSMO).unwrap();
    vault.stake_local(USER, 200, OSMO).unwrap();
    stake_remotely(&mut vault, &mut cross, CROSS1, USER, &[VAL1], &[200]);
    vault.unbond(USER, 100, OSMO).unwrap();

    let claims = vault.account_claims(USER, None, None);
    assert_eq!(claims[0].amount, ValueRange(200, 200));
    assert_eq!(claims[1].amount, ValueRange(200, 200));
    let details = vault.account_details(USER);
    assert_eq!(details.max_lien, ValueRange(200, 200));
    assert_eq!(details.total_slashable, ValueRange(40, 40));
    assert_eq!(details.bonded, 200);
    assert_eq!(details.free, ValueRange(0, 0));

    slash(&mut vault, &mut cross, CROSS1, VAL1);

    let claims = vault.account_claims(USER, None, None);
    assert_eq!(claims[0].amount, ValueRange(180, 180));
    assert_eq!(claims[1].amount, ValueRange(180, 180));
    let details = vault.account_details(USER);
    assert_eq!(details.max_lien, ValueRange(180, 180));
    assert_eq!(details.total_slashable, ValueRange(36, 36));
    assert_eq!(details.bonded, 180);
    assert_eq!(details.free, ValueRange(0, 0));
}

#[test]
fn cross_slash_scenario_3() {
    // The slashed delegator has some free collateral on the vault
    let (mut vault, mut cross) = setup(10);
    vault.bond(USER, 200, OSMO).unwrap();
    vault.stake_local(USER, 190, OSMO).unwrap();
    stake_remotely(&mut vault, &mut cross, CROSS1, USER, &[VAL1], &[150]);

    let claims = vault.account_claims(USER, None, None);
    assert_eq!(claims[0].amount, ValueRange(190, 190));
    assert_eq!(claims[1].amount, ValueRange(150, 150));
    let details = vault.account_details(USER);
    assert_eq!(details.max_lien, ValueRange(190, 190));
    assert_eq!(details.total_slashable, ValueRange(34, 34));
    assert_eq!(details.bonded, 200);
    assert_eq!(details.free, ValueRange(10, 10));

    slash(&mut vault, &mut cross, CROSS1, VAL1);

    let claims = vault.account_claims(USER, None, None);
    assert_eq!(claims[0].amount, ValueRange(185, 185));
    assert_eq!(claims[1].amount, ValueRange(135, 135));
    let details = vault.account_details(USER);
    assert_eq!(details.max_lien, ValueRange(185, 185));
    assert_eq!(details.total_slashable, ValueRange(33, 33));
    assert_eq!(details.bonded, 185);
    assert_eq!(details.free, ValueRange(0, 0));
}

#[test]
fn cross_slash_scenario_4() {
    // Same as scenario 3, with more delegations spread over two remotes
    let (mut vault, mut cross1) = setup(10);
    let mut cross2 = new_cross(10);
    vault.bond(USER, 200, OSMO).unwrap();
    vault.stake_local(USER, 190, OSMO).unwrap();
    stake_remotely(&mut vault, &mut cross1, CROSS1, USER, &[VAL1, VAL2], &[140, 40]);
    stake_remotely(&mut vault, &mut cross2, CROSS2, USER, &[VAL3, VAL4], &[100, 88]);

    let claims = vault.account_claims(USER, None, None);
    assert_eq!(claims[0].amount, ValueRange(190, 190));
    assert_eq!(claims[1].amount, ValueRange(180, 180));
    assert_eq!(claims[2].amount, ValueRange(188, 188));
    let details = vault.account_details(USER);
    assert_eq!(details.max_lien, ValueRange(190, 190));
    assert_eq!(details.total_slashable, ValueRange(55, 55));
    assert_eq!(details.bonded, 200);
    assert_eq!(details.free, ValueRange(10, 10));

    slash(&mut vault, &mut cross1, CROSS1, VAL1);

    let claims = vault.account_claims(USER, None, None);
    assert_eq!(claims[0].amount, ValueRange(186, 186));
    assert_eq!(claims[1].amount, ValueRange(166, 166));
    assert_eq!(claims[2].amount, ValueRange(186, 186));
    let details = vault.account_details(USER);
    assert_eq!(details.max_lien, ValueRange(186, 186));
    assert_eq!(details.total_slashable, ValueRange(54, 54));
    assert_eq!(details.bonded, 186);
    assert_eq!(details.free, ValueRange(0, 0));
}

#[test]
fn cross_slash_scenario_5() {
    // The slashable total, not the largest lien, binds after the slash
    let (mut vault, mut cross1) = setup(50);
    let mut cross2 = new_cross(50);
    let mut cross3 = new_cross(50);
    vault.bond(USER, 200, OSMO).unwrap();
    vault.stake_local(USER, 100, OSMO).unwrap();
    stake_remotely_at(&mut vault, &mut cross1, CROSS1, USER, VAL1, 180, 50);
    stake_remotely_at(&mut vault, &mut cross2, CROSS2, USER, VAL2, 80, 50);
    stake_remotely_at(&mut vault, &mut cross3, CROSS3, USER, VAL3, 100, 50);

    let claims = vault.account_claims(USER, None, None);
    assert_eq!(claims[0].amount, ValueRange(100, 100));
    assert_eq!(claims[1].amount, ValueRange(180, 180));
    assert_eq!(claims[2].amount, ValueRange(80, 80));
    assert_eq!(claims[3].amount, ValueRange(100, 100));
    let details = vault.account_details(USER);
    assert_eq!(details.max_lien, ValueRange(180, 180));
    assert_eq!(details.total_slashable, ValueRange(190, 190));
    assert_eq!(details.bonded, 200);
    assert_eq!(details.free, ValueRange(10, 10));

    slash(&mut vault, &mut cross1, CROSS1, VAL1);

    let claims = vault.account_claims(USER, None, None);
    assert_eq!(claims[0].amount, ValueRange(78, 78));
    assert_eq!(claims[1].amount, ValueRange(68, 68));
    assert_eq!(claims[2].amount, ValueRange(58, 58));
    assert_eq!(claims[3].amount, ValueRange(78, 78));
    let details = vault.account_details(USER);
    assert_eq!(details.max_lien, ValueRange(78, 78));
    assert_eq!(details.total_slashable, ValueRange(110, 110));
    assert_eq!(details.bonded, 110);
    assert_eq!(details.free, ValueRange(0, 0));
}

fn stake_remotely_at(
    vault: &mut VaultContract,
    cross: &mut ExternalStakingContract,
    cross_addr: u64,
    user: u64,
    validator: u64,
    amount: u64,
    slash_percent: u32,
) {
    let tx = vault
        .stake_remote(user, cross_addr, SlashRatio::percent(slash_percent), amount, OSMO)
        .unwrap();
    cross
        .receive_virtual_stake(VAULT, user, validator, amount, tx, OSMO)
        .unwrap();
    let ext_tx = cross.all_pending_txs_desc(None, None)[0].id;
    cross.commit_stake(ext_tx).unwrap();
    vault.commit_tx(cross_addr, tx).unwrap();
}

#[test]
fn cross_slash_no_native_staking() {
    // Same as scenario 4, without any local stake
    let (mut vault, mut cross1) = setup(10);
    let mut cross2 = new_cross(10);
    vault.bond(USER, 200, OSMO).unwrap();
    stake_remotely(&mut vault, &mut cross1, CROSS1, USER, &[VAL1, VAL2], &[140, 40]);
    stake_remotely(&mut vault, &mut cross2, CROSS2, USER, &[VAL3, VAL4], &[100, 88]);

    let claims = vault.account_claims(USER, None, None);
    assert_eq!(claims[0].amount, ValueRange(180, 180));
    assert_eq!(claims[1].amount, ValueRange(188, 188));
    let details = vault.account_details(USER);
    assert_eq!(details.max_lien, ValueRange(188, 188));
    assert_eq!(details.total_slashable, ValueRange(36, 36));
    assert_eq!(details.bonded, 200);
    assert_eq!(details.free, ValueRange(12, 12));

    slash(&mut vault, &mut cross1, CROSS1, VAL1);

    let claims = vault.account_claims(USER, None, None);
    assert_eq!(claims[0].amount, ValueRange(166, 166));
    assert_eq!(claims[1].amount, ValueRange(186, 186));
    let details = vault.account_details(USER);
    assert_eq!(details.max_lien, ValueRange(186, 186));
    assert_eq!(details.total_slashable, ValueRange(35, 35));
    assert_eq!(details.bonded, 186);
    assert_eq!(details.free, ValueRange(0, 0));
}
