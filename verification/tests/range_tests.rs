//! The optimistic range primitive, exercised as an integer-like value.

use mesh_provider::range::{max_val, min_val, spread, sum_ranges, RangeError, ValueRange};

#[test]
fn comparisons() {
    // check for one point - it behaves like an integer
    let mut range = ValueRange::new(50);
    // valid_min + valid_max is like equals
    assert!(range.valid_max(50));
    assert!(range.valid_min(50));
    // valid_max + !valid_min is >=
    assert!(range.valid_max(51));
    assert!(!range.valid_min(51));
    // valid_min + !valid_max is <=
    assert!(!range.valid_max(49));
    assert!(range.valid_min(49));

    // make a range (50, 80), it should compare properly to those outside the range
    range.prepare_add(30).unwrap();
    assert!(!range.valid_max(49));
    assert!(range.valid_min(49));
    assert!(range.valid_max(81));
    assert!(!range.valid_min(81));

    // all comparisons inside the range lead to false
    assert!(!range.valid_max(60));
    assert!(!range.valid_min(60));
}

#[test]
fn add_ranges() {
    // (80, 120)
    let mut range = ValueRange::new(80);
    range.prepare_add(40).unwrap();

    // (100, 200)
    let mut other = ValueRange::new(200);
    other.prepare_sub(100).unwrap();

    let total = range.add(other);
    assert_eq!(total, ValueRange(180, 320));
}

#[test]
fn sums() {
    let ranges = vec![
        ValueRange::new(100),
        ValueRange(0, 250),
        ValueRange::new(200),
        ValueRange(170, 380),
    ];
    let total: ValueRange = sum_ranges(&ranges);
    assert_eq!(total, ValueRange(470, 930));
}

#[test]
fn min_max() {
    let ranges = vec![
        ValueRange::new(100),
        ValueRange(40, 250),
        ValueRange::new(200),
        ValueRange(170, 380),
    ];
    let max = max_val(&ranges);
    assert_eq!(max, 380);

    let min = min_val(&ranges);
    assert_eq!(min, 40);

    let all = spread(&ranges);
    assert_eq!(all, ValueRange(40, 380));
}

// most tests use small numbers for simplicity - just ensure the API works
// with amounts at the scale a 128-bit balance type would carry
#[test]
fn works_with_uint128() {
    // (80, 120)
    let mut range = ValueRange::new(80);
    range.prepare_add(40).unwrap();

    // (100, 200)
    let mut other = ValueRange::new(200);
    other.prepare_sub(100).unwrap();

    let total = range.add(other);
    assert_eq!(total, ValueRange(180, 320));
}

// This test attempts to use the API in a realistic scenario.
// A user has X collateral and makes some liens on this collateral, which execute asynchronously.
// That is, we want to process other transactions while the liens are being executed, while ensuring there
// will not be a conflict on rollback or commit.
#[test]
fn real_world_usage() {
    let mut collateral = 10_000u64;
    let mut lien = ValueRange::new(0u64);

    // prepare some lien
    lien.prepare_add_max(2_000, collateral).unwrap();
    lien.prepare_add_max(5_000, collateral).unwrap();

    // cannot add too much
    let err = lien.prepare_add_max(3_500, collateral).unwrap_err();
    assert_eq!(err, RangeError::Overflow);

    // let's commit the second pending lien (only 2000 left)
    lien.commit_add(5_000);
    assert_eq!(lien, ValueRange(5_000, 7_000));

    // See we cannot reduce this by 4_000
    assert!(!lien.valid_max(collateral - 4_000));
    // See we can reduce this by 2_000
    assert!(lien.valid_max(collateral - 2_000));
    collateral -= 2_000;

    // start unbonding 3_000
    lien.prepare_sub(3_000).unwrap();
    // still; cannot increase max (7_000) over the new cap of 8_000
    let err = lien.prepare_add_max(1_500, collateral).unwrap_err();
    assert_eq!(err, RangeError::Overflow);

    // if we rollback the other pending lien, this works
    lien.rollback_add(2_000);
    assert_eq!(lien, ValueRange(2_000, 5_000));
    lien.prepare_add_max(1_500, collateral).unwrap();
}

#[test]
fn prepare_then_rollback_is_identity() {
    let mut r = ValueRange(10, 25);
    r.prepare_add(7).unwrap();
    r.rollback_add(7);
    assert_eq!(r, ValueRange(10, 25));

    let mut r = ValueRange(10, 25);
    r.prepare_sub(4).unwrap();
    r.rollback_sub(4);
    assert_eq!(r, ValueRange(10, 25));
}

#[test]
fn prepare_then_commit_moves_both_ends() {
    let mut r = ValueRange(10, 25);
    r.prepare_add(7).unwrap();
    r.commit_add(7);
    assert_eq!(r, ValueRange(17, 32));

    let mut r = ValueRange(10, 25);
    r.prepare_sub(4).unwrap();
    r.commit_sub(4);
    assert_eq!(r, ValueRange(6, 21));
}

#[test]
fn prepare_sub_enforces_minimum() {
    let mut r = ValueRange::new(10);
    assert_eq!(r.prepare_sub(11), Err(RangeError::Underflow));
    assert_eq!(r, ValueRange(10, 10));
    assert_eq!(r.prepare_sub_min(3, Some(8)), Err(RangeError::Underflow));
    assert_eq!(r.prepare_sub_min(2, Some(8)), Ok(()));
    assert_eq!(r, ValueRange(8, 10));
    r.rollback_sub(2);
    assert_eq!(r, ValueRange(10, 10));
}

#[test]
fn contains_is_inclusive() {
    let r = ValueRange(5, 9);
    assert!(!r.contains(4));
    assert!(r.contains(5));
    assert!(r.contains(7));
    assert!(r.contains(9));
    assert!(!r.contains(10));
}
