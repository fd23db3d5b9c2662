use subscriptions::{Account, BillingError, Collector, SkipList, SubscriptionManager};

fn account(id: u8) -> Account {
    [id; 20]
}

#[test]
fn one_complete_subscription() {
    let mut subs = SubscriptionManager::new();
    subs.set_price_per_block(10);

    // Buys blocks 6 to 15.
    subs.set_current_block(5).unwrap();
    subs.top_off(account(1), 100).unwrap();

    subs.set_current_block(100).unwrap();
    subs.collect();

    assert_eq!(subs.service_balance(), 100);
}

#[test]
fn subscription_is_active_for_required_blocks() {
    let mut subs = SubscriptionManager::new();
    subs.set_price_per_block(10);

    let account = account(1);

    subs.set_current_block(5).unwrap();
    subs.top_off(account, 100).unwrap();

    assert_eq!(false, subs.is_active(account));
    for i in 6..16 {
        subs.set_current_block(i).unwrap();
        assert_eq!(true, subs.is_active(account));
    }
    subs.set_current_block(16).unwrap();
    assert_eq!(false, subs.is_active(account));
}

#[test]
fn loop_collect() {
    let mut subs = SubscriptionManager::new();
    subs.set_price_per_block(5);

    subs.set_current_block(1).unwrap();
    subs.top_off(account(1), 100).unwrap();

    for i in 2..30 {
        subs.set_current_block(i).unwrap();
        subs.collect();
    }

    assert_eq!(subs.service_balance(), 100);
}

#[test]
fn overlapping_subscriptions() {
    let mut subs = SubscriptionManager::new();
    subs.set_price_per_block(10);

    // Blocks 6 to 15.
    subs.set_current_block(5).unwrap();
    subs.top_off(account(1), 100).unwrap();

    // Blocks 11 to 30.
    subs.set_current_block(10).unwrap();
    subs.top_off(account(2), 200).unwrap();

    // 6..=15 at 10 (100), plus 11..=18 at 10 (80).
    subs.set_current_block(19).unwrap();
    subs.collect();

    assert_eq!(subs.service_balance(), 180);
}

#[test]
fn funds_are_conserved_across_operations() {
    let mut subs = SubscriptionManager::new();
    subs.set_price_per_block(7);
    subs.set_current_block(3).unwrap();
    subs.top_off(account(1), 50).unwrap();
    assert_eq!(subs.pooled_balance() + subs.service_balance(), 50);
    subs.set_current_block(6).unwrap();
    subs.collect();
    assert_eq!(subs.pooled_balance() + subs.service_balance(), 50);
    assert_eq!(subs.top_off(account(2), 3), Err(BillingError::SubMinimumPurchase));
    assert_eq!(subs.pooled_balance() + subs.service_balance(), 50);
    subs.top_off(account(2), 14).unwrap();
    assert_eq!(subs.pooled_balance() + subs.service_balance(), 64);
    subs.set_current_block(40).unwrap();
    subs.collect();
    assert_eq!(subs.pooled_balance() + subs.service_balance(), 64);
    // 7 units of 7 and 2 units of 7; the remainder of the first amount stays pooled.
    assert_eq!(subs.service_balance(), 63);
    assert_eq!(subs.pooled_balance(), 1);
}

#[test]
fn single_subscription_pays_floor_units() {
    let mut subs = SubscriptionManager::new();
    subs.set_price_per_block(10);
    subs.set_current_block(5).unwrap();
    subs.top_off(account(1), 109).unwrap();
    subs.set_current_block(100).unwrap();
    assert!(subs.collect());
    assert_eq!(subs.service_balance(), 100);
    assert_eq!(subs.pooled_balance(), 9);
    assert_eq!(subs.last_collected_block(), 100);
}

#[test]
fn partial_collection_mid_interval() {
    let mut subs = SubscriptionManager::new();
    subs.set_price_per_block(10);
    subs.set_current_block(5).unwrap();
    subs.top_off(account(1), 100).unwrap();
    subs.set_current_block(9).unwrap();
    subs.collect();
    // Units 6, 7 and 8 are earned.
    assert_eq!(subs.service_balance(), 30);
    assert_eq!(subs.pooled_balance(), 70);
}

#[test]
fn collecting_once_matches_collecting_every_step() {
    let mut stepwise = SubscriptionManager::new();
    let mut once = SubscriptionManager::new();
    for subs in [&mut stepwise, &mut once] {
        subs.set_price_per_block(5);
        subs.set_current_block(1).unwrap();
        subs.top_off(account(1), 100).unwrap();
        subs.top_off(account(2), 35).unwrap();
    }
    for i in 2..30 {
        stepwise.set_current_block(i).unwrap();
        stepwise.collect();
    }
    once.set_current_block(29).unwrap();
    once.collect();
    assert_eq!(stepwise.service_balance(), 135);
    assert_eq!(once.service_balance(), stepwise.service_balance());
}

#[test]
fn overlapping_subscriptions_at_different_prices() {
    let mut subs = SubscriptionManager::new();
    subs.set_price_per_block(10);
    // [6, 16) at 10.
    subs.set_current_block(5).unwrap();
    subs.top_off(account(1), 100).unwrap();
    // [11, 15) at 30.
    subs.set_price_per_block(30);
    subs.set_current_block(10).unwrap();
    subs.top_off(account(2), 120).unwrap();
    subs.set_current_block(19).unwrap();
    subs.collect();
    // [6, 11) at 10, [11, 15) at 40, [15, 16) at 10.
    assert_eq!(subs.service_balance(), 50 + 160 + 10);
}

#[test]
fn repeat_purchase_extends_after_last_interval() {
    let mut subs = SubscriptionManager::new();
    subs.set_price_per_block(10);
    let a = account(3);
    subs.set_current_block(5).unwrap();
    subs.top_off(a, 50).unwrap();
    subs.top_off(a, 30).unwrap();
    // [6, 11) then [11, 14).
    subs.set_current_block(13).unwrap();
    assert!(subs.is_active(a));
    subs.set_current_block(14).unwrap();
    assert!(!subs.is_active(a));
    subs.collect();
    assert_eq!(subs.service_balance(), 80);
}

#[test]
fn unknown_account_is_inactive() {
    let mut subs = SubscriptionManager::new();
    subs.set_price_per_block(10);
    subs.set_current_block(5).unwrap();
    subs.top_off(account(1), 100).unwrap();
    subs.set_current_block(7).unwrap();
    assert!(!subs.is_active(account(2)));
    assert!(subs.is_active(account(1)));
}

#[test]
fn time_must_move_forward() {
    let mut subs = SubscriptionManager::new();
    subs.set_current_block(5).unwrap();
    assert_eq!(subs.set_current_block(5), Err(BillingError::NonMonotonicTime));
    assert_eq!(subs.set_current_block(4), Err(BillingError::NonMonotonicTime));
    assert_eq!(subs.current_block(), 5);
}

#[test]
fn purchase_without_price_is_refused() {
    let mut subs = SubscriptionManager::new();
    subs.set_current_block(5).unwrap();
    assert_eq!(subs.top_off(account(1), 100), Err(BillingError::InvalidPrice));
    assert_eq!(subs.pooled_balance(), 0);
}

#[test]
fn sub_minimum_purchase_is_refused() {
    let mut subs = SubscriptionManager::new();
    subs.set_price_per_block(10);
    subs.set_current_block(5).unwrap();
    assert_eq!(subs.top_off(account(1), 9), Err(BillingError::SubMinimumPurchase));
    assert_eq!(subs.top_off(account(1), -20), Err(BillingError::SubMinimumPurchase));
    assert_eq!(subs.pooled_balance(), 0);
    assert!(!subs.is_active(account(1)));
}

#[test]
fn overflowing_purchase_is_refused() {
    let mut subs = SubscriptionManager::new();
    subs.set_price_per_block(1);
    subs.set_current_block(5).unwrap();
    assert_eq!(subs.top_off(account(1), i128::MAX), Err(BillingError::ArithmeticOverflow));
    subs.top_off(account(1), i128::MAX / 2).unwrap();
    assert_eq!(subs.top_off(account(2), i128::MAX / 2 + 2), Err(BillingError::ArithmeticOverflow));
    assert_eq!(subs.pooled_balance(), i128::MAX / 2);
}

#[test]
fn collection_is_bounded_per_call() {
    let mut subs = SubscriptionManager::new();
    subs.set_price_per_block(1);
    // Eighty one-unit intervals [i + 2, i + 3), one after another: 81 timeline entries.
    for i in 0..80u8 {
        subs.set_current_block(i as i128 + 1).unwrap();
        subs.top_off(account(i), 1).unwrap();
    }
    subs.set_current_block(200).unwrap();
    assert!(!subs.collect());
    assert_eq!(subs.last_collected_block(), 65);
    assert_eq!(subs.service_balance(), 63);
    assert_eq!(subs.pooled_balance() + subs.service_balance(), 80);
    assert!(subs.collect());
    assert_eq!(subs.last_collected_block(), 200);
    assert_eq!(subs.service_balance(), 80);
    assert!(subs.collect());
    assert_eq!(subs.service_balance(), 80);
}

#[test]
fn accumulate_merges_same_time() {
    let mut list = SkipList::new();
    list.accumulate(10, 5);
    list.accumulate(10, 7);
    list.accumulate(3, -2);
    assert_eq!(list.iter(), vec![(3, -2), (10, 12)]);
    assert_eq!(list.len(), 2);
}

#[test]
fn get_or_insert_mut_keeps_order() {
    let mut list = SkipList::new();
    *list.get_or_insert_mut(20) += 4;
    *list.get_or_insert_mut(5) -= 1;
    *list.get_or_insert_mut(12) += 9;
    *list.get_or_insert_mut(20) += 1;
    assert_eq!(list.iter(), vec![(5, -1), (12, 9), (20, 5)]);
    assert_eq!(list.entry(1), (12, 9));
}

#[test]
fn truncate_front_drops_prefix() {
    let mut list = SkipList::new();
    list.accumulate(1, 1);
    list.accumulate(2, 2);
    list.accumulate(3, 3);
    list.truncate_front(2);
    assert_eq!(list.iter(), vec![(3, 3)]);
    list.truncate_front(0);
    assert_eq!(list.iter(), vec![(3, 3)]);
}

#[test]
fn collector_settles_at_current_rate() {
    let mut c = Collector::new();
    c.balance = 100;
    c.apply_delta(3);
    c.collect_one(4);
    assert_eq!(c.balance, 88);
    assert_eq!(c.service_balance, 12);
    assert_eq!(c.last_collected_block, 4);
    c.apply_delta(-3);
    c.collect_one(10);
    assert_eq!(c.service_balance, 12);
}
