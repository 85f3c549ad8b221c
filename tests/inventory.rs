use lane_battler::{Item, COIN};

#[test]
fn add_until_full_not_reaching_capacity() {
    let mut item = Item::new(2, 10);

    let not_added = item.add_until_full(5 * COIN);

    assert_eq!(item.count(), 7);
    assert_eq!(not_added / COIN, 0);
}

#[test]
fn add_until_full_reaching_capacity() {
    let mut item = Item::new(5, 10);

    let not_added = item.add_until_full(10 * COIN);

    assert_eq!(item.count(), 10);
    assert_eq!(not_added / COIN, 5);
}

#[test]
fn try_remove_successful() {
    let mut item = Item::new(8, 10);

    let is_success = item.try_remove(5);

    assert_eq!(item.count(), 3);
    assert!(is_success);
}

#[test]
fn try_remove_failure() {
    let mut item = Item::new(3, 10);

    let is_success = item.try_remove(5);

    assert_eq!(item.count(), 3);
    assert!(!is_success);
}

#[test]
fn accrual_over_five_seconds_reaches_fifty() {
    let mut item = Item::empty(1000);
    for _ in 0..50 {
        assert_eq!(item.accrue(10, 100), 0);
    }
    assert_eq!(item.count(), 50);
    assert_eq!(item.thousandths(), 50 * COIN);
}

#[test]
fn accrual_past_the_cap_returns_the_excess() {
    let mut item = Item::new(95, 100);
    let rest = item.accrue(10, 1000);
    assert_eq!(rest, 5 * COIN);
    assert_eq!(item.count(), 100);
    assert_eq!(item.capacity(), 100);
}

#[test]
fn accrual_exactly_to_the_cap_returns_nothing() {
    let mut item = Item::new(90, 100);
    assert_eq!(item.accrue(10, 1000), 0);
    assert_eq!(item.count(), 100);
}

#[test]
fn fractional_accrual_is_kept() {
    let mut item = Item::empty(10);
    assert_eq!(item.accrue(2, 250), 0);
    assert_eq!(item.thousandths(), 500);
    assert_eq!(item.count(), 0);
    item.accrue(2, 250);
    assert_eq!(item.count(), 1);
}

#[test]
fn spending_more_than_held_changes_nothing() {
    let mut item = Item::new(15, 1000);
    assert!(!item.try_remove(20));
    assert_eq!(item.count(), 15);
    assert_eq!(item.thousandths(), 15 * COIN);
}

#[test]
fn spending_exactly_what_is_held_leaves_zero() {
    let mut item = Item::new(20, 100);
    assert!(item.try_remove(20));
    assert_eq!(item.thousandths(), 0);
}

#[test]
fn empty_stock_has_its_capacity() {
    let item = Item::empty(100);
    assert_eq!(item.count(), 0);
    assert_eq!(item.capacity(), 100);
}

#[test]
fn accrual_does_not_depend_on_how_time_is_split() {
    let mut split = Item::empty(1000);
    split.accrue(10, 2000);
    split.accrue(10, 3000);
    let mut whole = Item::empty(1000);
    whole.accrue(10, 5000);
    assert_eq!(split.count(), 50);
    assert_eq!(split.thousandths(), whole.thousandths());
}
