use subscrypt::{AccountId, Error, RefundPayout, RenewPayout, Subscrypt, Transfer};

const DAY: u64 = 60 * 60 * 24;
const MONTH: u64 = DAY * 30;

fn alice() -> AccountId {
    AccountId::new([0x01; 32])
}

fn bob() -> AccountId {
    AccountId::new([0x02; 32])
}

fn eve() -> AccountId {
    AccountId::new([0x05; 32])
}

fn marketplace() -> Subscrypt {
    let mut contract = Subscrypt::new(0);
    contract
        .provider_register(
            &alice(),
            100,
            vec![DAY, MONTH],
            vec![2, 2],
            vec![10000, 50000],
            vec![50, 100],
            alice(),
        )
        .unwrap();
    contract
}

fn subscribe(contract: &mut Subscrypt, user: AccountId, now: u64, plan: u128, paid: u128) -> Result<Transfer, Error> {
    contract.subscribe(&user, now, paid, &alice(), plan, [0; 32], "nothing important".to_string())
}

#[test]
fn first_subscribe_works() {
    let mut contract = marketplace();
    let transfer = subscribe(&mut contract, bob(), 0, 1, 50000).unwrap();
    assert_eq!(transfer, Transfer { to: alice(), amount: 45000 });
    assert_eq!(contract.user(&bob()).unwrap().list_of_providers, vec![alice()]);
    assert_eq!(contract.user(&bob()).unwrap().subs_crypt_pass_hash, [0; 32]);
    let history = contract.plan_record(&bob(), &alice()).unwrap();
    assert_eq!(history.subscription_records.len(), 1);
    let record = &history.subscription_records[0];
    assert_eq!(record.provider, alice());
    assert_eq!(record.plan_index, 1);
    assert_eq!(record.plan.duration, MONTH);
    assert_eq!(record.plan.price, 50000);
    assert_eq!(record.plan.max_refund_percent_policy, 100);
    assert_eq!(record.subscription_time, 0);
    assert_eq!(record.meta_data_encrypted, "nothing important");
    assert_eq!(record.refunded, false);
    assert_eq!(contract.latest_place(&bob(), &alice(), 1), Some(0));
    assert_eq!(contract.locked_on(&alice(), 30).unwrap().amount, 5000);
}

#[test]
#[should_panic]
fn subscribe_works2() {
    let mut contract = marketplace();
    subscribe(&mut contract, bob(), 0, 1, 49500).unwrap();
}

#[test]
#[should_panic]
fn subscribe_fails_insufficient_paying() {
    let mut contract = marketplace();
    subscribe(&mut contract, bob(), 0, 1, 49500).unwrap();
}

#[test]
fn subscribe_names_its_reasons() {
    let mut contract = marketplace();
    assert_eq!(
        contract.subscribe(&bob(), 0, 50000, &bob(), 1, [0; 32], String::new()),
        Err(Error::ProviderNotFound)
    );
    assert_eq!(subscribe(&mut contract, bob(), 0, 2, 50000), Err(Error::InvalidPlanIndex));
    assert_eq!(subscribe(&mut contract, bob(), 0, 1, 50001), Err(Error::WrongPayment));
    assert_eq!(subscribe(&mut contract, bob(), 0, 1, 49999), Err(Error::WrongPayment));
    contract.change_disable(&alice(), 1).unwrap();
    assert_eq!(subscribe(&mut contract, bob(), 0, 1, 50000), Err(Error::PlanDisabled));
    contract.change_disable(&alice(), 1).unwrap();
    assert!(contract.user(&bob()).is_none());
    assert!(contract.plan_record(&bob(), &alice()).is_none());
    assert_eq!(contract.locked_on(&alice(), 30), None);
    assert!(subscribe(&mut contract, bob(), 0, 1, 50000).is_ok());
    assert_eq!(subscribe(&mut contract, bob(), 5, 1, 50000), Err(Error::AlreadySubscribed));
    assert_eq!(contract.plan_record(&bob(), &alice()).unwrap().subscription_records.len(), 1);
}

#[test]
fn subscription_before_the_contract_started_is_rejected() {
    let mut contract = Subscrypt::new(10 * DAY);
    contract
        .provider_register(&alice(), 100, vec![DAY], vec![2], vec![10000], vec![50], alice())
        .unwrap();
    assert_eq!(subscribe(&mut contract, bob(), 8 * DAY, 0, 10000), Err(Error::ClockBeforeStart));
    assert!(subscribe(&mut contract, bob(), 9 * DAY, 0, 10000).is_ok());
    assert_eq!(contract.locked_on(&alice(), 0).unwrap().amount, 500);
}

#[test]
fn escrow_day_counts_from_the_contract_start() {
    let mut contract = Subscrypt::new(1000);
    contract
        .provider_register(&alice(), 100, vec![MONTH], vec![2], vec![50000], vec![100], alice())
        .unwrap();
    subscribe(&mut contract, bob(), 1000 + 3 * DAY + 17, 0, 50000).unwrap();
    assert_eq!(contract.locked_on(&alice(), 33).unwrap().amount, 5000);
    assert_eq!(contract.locked_on(&alice(), 34), None);
}

#[test]
fn second_plan_of_the_same_provider_joins_the_history() {
    let mut contract = marketplace();
    subscribe(&mut contract, bob(), 0, 1, 50000).unwrap();
    let transfer = subscribe(&mut contract, bob(), 10, 0, 10000).unwrap();
    assert_eq!(transfer, Transfer { to: alice(), amount: 9500 });
    assert_eq!(contract.user(&bob()).unwrap().list_of_providers, vec![alice()]);
    let history = contract.plan_record(&bob(), &alice()).unwrap();
    assert_eq!(history.subscription_records.len(), 2);
    assert_eq!(history.subscription_records[1].plan_index, 0);
    assert_eq!(history.subscription_records[1].subscription_time, 10);
    assert_eq!(contract.latest_place(&bob(), &alice(), 1), Some(0));
    assert_eq!(contract.latest_place(&bob(), &alice(), 0), Some(1));
    assert_eq!(contract.locked_on(&alice(), 1).unwrap().amount, 500);
}

#[test]
fn subscription_keeps_the_terms_it_was_bought_with() {
    let mut contract = marketplace();
    subscribe(&mut contract, bob(), 0, 1, 50000).unwrap();
    contract.edit_plan(&alice(), 1, DAY, 3, 7, 900, true).unwrap();
    let history = contract.plan_record(&bob(), &alice()).unwrap();
    assert_eq!(history.subscription_records[0].plan.duration, MONTH);
    assert_eq!(history.subscription_records[0].plan.price, 50000);
    assert_eq!(history.subscription_records[0].plan.max_refund_percent_policy, 100);
    assert!(contract.check_subscription(&bob(), &alice(), 1, MONTH - 1));
}

#[test]
fn subscribing_again_after_expiry_moves_the_latest_place() {
    let mut contract = marketplace();
    subscribe(&mut contract, bob(), 0, 0, 10000).unwrap();
    assert_eq!(subscribe(&mut contract, bob(), DAY - 1, 0, 10000), Err(Error::AlreadySubscribed));
    subscribe(&mut contract, bob(), DAY, 0, 10000).unwrap();
    assert_eq!(contract.latest_place(&bob(), &alice(), 0), Some(1));
    assert_eq!(contract.locked_on(&alice(), 1).unwrap().amount, 500);
    assert_eq!(contract.locked_on(&alice(), 2).unwrap().amount, 500);
}

#[test]
fn first_check_subscription_works() {
    let mut contract = marketplace();
    subscribe(&mut contract, bob(), 0, 1, 50000).unwrap();
    assert_eq!(
        contract.plan_record(&bob(), &alice()).unwrap().subscription_records[0].refunded,
        false
    );
    assert_eq!(contract.check_subscription(&bob(), &alice(), 1, 0), true);
}

#[test]
fn subscription_is_live_from_its_start_to_just_before_its_end() {
    let mut contract = marketplace();
    subscribe(&mut contract, bob(), 1000, 1, 50000).unwrap();
    assert!(contract.check_subscription(&bob(), &alice(), 1, 1000));
    assert!(contract.check_subscription(&bob(), &alice(), 1, 1000 + MONTH - 1));
    assert!(!contract.check_subscription(&bob(), &alice(), 1, 1000 + MONTH));
    assert!(!contract.check_subscription(&bob(), &alice(), 0, 1000));
    assert!(!contract.check_subscription(&eve(), &alice(), 1, 1000));
    assert!(!contract.check_subscription(&bob(), &eve(), 1, 1000));
}

#[test]
fn first_refund_works() {
    let mut contract = marketplace();
    subscribe(&mut contract, bob(), 0, 1, 50000).unwrap();
    assert_eq!(
        contract.plan_record(&bob(), &alice()).unwrap().subscription_records[0].refunded,
        false
    );
    let payout = contract.refund(&bob(), 0, &alice(), 1).unwrap();
    assert_eq!(
        payout,
        RefundPayout { user_amount: 5000, provider_amount: 0, money_address: alice() }
    );
    assert_eq!(
        contract.plan_record(&bob(), &alice()).unwrap().subscription_records[0].refunded,
        true
    );
}

#[test]
#[should_panic]
fn refund_works2() {
    let mut contract = marketplace();
    subscribe(&mut contract, bob(), 0, 1, 50000).unwrap();
    contract.refund(&bob(), 0, &alice(), 1).unwrap();
    contract.refund(&bob(), 0, &alice(), 1).unwrap();
}

#[test]
#[should_panic]
fn refund_fails_double_refund() {
    let mut contract = marketplace();
    subscribe(&mut contract, bob(), 0, 1, 50000).unwrap();
    contract.refund(&bob(), 0, &alice(), 1).unwrap();
    contract.refund(&bob(), 0, &alice(), 1).unwrap();
}

#[test]
fn refund_at_half_time_pays_the_whole_escrow_to_the_user() {
    let mut contract = marketplace();
    let transfer = subscribe(&mut contract, bob(), 0, 1, 50000).unwrap();
    assert_eq!(transfer.amount, 45000);
    assert_eq!(contract.locked_on(&alice(), 30).unwrap().amount, 5000);
    let payout = contract.refund(&bob(), MONTH / 2, &alice(), 1).unwrap();
    assert_eq!(payout.user_amount, 5000);
    assert_eq!(payout.provider_amount, 0);
    assert_eq!(contract.locked_on(&alice(), 30).unwrap().amount, 0);
    assert_eq!(contract.provider(&alice()).unwrap().payment_manager.locked, 0);
    assert!(!contract.check_subscription(&bob(), &alice(), 1, MONTH / 2));
}

#[test]
fn refund_near_expiry_splits_the_escrow() {
    let mut contract = marketplace();
    subscribe(&mut contract, bob(), 0, 1, 50000).unwrap();
    let payout = contract.refund(&bob(), 2_584_224, &alice(), 1).unwrap();
    assert_eq!(
        payout,
        RefundPayout { user_amount: 150, provider_amount: 4850, money_address: alice() }
    );
    assert_eq!(contract.locked_on(&alice(), 30).unwrap().amount, 0);
}

#[test]
fn refund_after_29_9_days_has_four_permille_left() {
    let mut contract = marketplace();
    subscribe(&mut contract, bob(), 0, 1, 50000).unwrap();
    let payout = contract.refund(&bob(), 2_583_360, &alice(), 1).unwrap();
    assert_eq!(payout.user_amount, 200);
    assert_eq!(payout.provider_amount, 4800);
}

#[test]
fn refund_where_the_cap_is_just_reached() {
    let mut contract = marketplace();
    subscribe(&mut contract, bob(), 0, 1, 50000).unwrap();
    let payout = contract.refund(&bob(), MONTH / 10 * 9, &alice(), 1).unwrap();
    assert_eq!(payout.user_amount, 5000);
    assert_eq!(payout.provider_amount, 0);
    let mut contract = marketplace();
    subscribe(&mut contract, bob(), 0, 1, 50000).unwrap();
    let payout = contract.refund(&bob(), MONTH / 1000 * 901, &alice(), 1).unwrap();
    assert_eq!(payout.user_amount, 4950);
    assert_eq!(payout.provider_amount, 50);
}

#[test]
fn refund_never_pays_more_later() {
    let mut last = u128::MAX;
    let mut elapsed = 0;
    while elapsed < MONTH {
        let mut contract = marketplace();
        subscribe(&mut contract, bob(), 0, 1, 50000).unwrap();
        let payout = contract.refund(&bob(), elapsed, &alice(), 1).unwrap();
        assert!(payout.user_amount <= last);
        assert!(payout.user_amount + payout.provider_amount <= 5000);
        last = payout.user_amount;
        elapsed += 7919;
    }
}

#[test]
fn refund_names_its_reasons() {
    let mut contract = marketplace();
    assert_eq!(contract.refund(&bob(), 0, &alice(), 1), Err(Error::NotSubscribed));
    subscribe(&mut contract, bob(), 100, 1, 50000).unwrap();
    assert_eq!(contract.refund(&bob(), 100, &alice(), 0), Err(Error::NotSubscribed));
    assert_eq!(contract.refund(&eve(), 100, &alice(), 1), Err(Error::NotSubscribed));
    assert_eq!(contract.refund(&bob(), 100 + MONTH, &alice(), 1), Err(Error::NotSubscribed));
    assert_eq!(contract.refund(&bob(), 99, &alice(), 1), Err(Error::ClockBeforeStart));
    assert_eq!(
        contract.plan_record(&bob(), &alice()).unwrap().subscription_records[0].refunded,
        false
    );
    assert!(contract.refund(&bob(), 100 + MONTH - 1, &alice(), 1).is_ok());
    assert_eq!(contract.refund(&bob(), 100 + MONTH - 1, &alice(), 1), Err(Error::NotSubscribed));
}

#[test]
fn refund_after_the_escrow_was_withdrawn_is_rejected() {
    let mut contract = marketplace();
    subscribe(&mut contract, bob(), DAY / 2, 0, 10000).unwrap();
    assert_eq!(contract.withdraw(&alice(), DAY), Ok(500));
    assert!(contract.check_subscription(&bob(), &alice(), 0, DAY));
    assert_eq!(contract.refund(&bob(), DAY, &alice(), 0), Err(Error::EscrowMissing));
    assert_eq!(
        contract.plan_record(&bob(), &alice()).unwrap().subscription_records[0].refunded,
        false
    );
}

#[test]
fn first_withdraw_works() {
    let mut contract = marketplace();
    subscribe(&mut contract, bob(), 0, 1, 50000).unwrap();
    assert_eq!(contract.user(&bob()).unwrap().list_of_providers[0], alice());
    assert_eq!(contract.withdraw(&alice(), 0), Ok(0));
}

#[test]
#[should_panic]
fn withdraw_works2() {
    let mut contract = marketplace();
    subscribe(&mut contract, bob(), 0, 1, 50000).unwrap();
    contract.withdraw(&eve(), 0).unwrap();
}

#[test]
#[should_panic]
fn withdraw_fails_provider_must_be_registered() {
    let mut contract = marketplace();
    subscribe(&mut contract, bob(), 0, 1, 50000).unwrap();
    contract.withdraw(&eve(), 0).unwrap();
}

#[test]
fn withdraw_names_its_reasons() {
    let mut contract = Subscrypt::new(500);
    assert_eq!(contract.withdraw(&alice(), 600), Err(Error::NotRegistered));
    contract
        .provider_register(&alice(), 100, vec![DAY], vec![2], vec![10000], vec![50], alice())
        .unwrap();
    assert_eq!(contract.withdraw(&alice(), 499), Err(Error::ClockBeforeStart));
    assert_eq!(contract.withdraw(&alice(), 500), Ok(0));
}

#[test]
fn withdraw_pays_what_has_matured_once() {
    let mut contract = marketplace();
    subscribe(&mut contract, bob(), 0, 1, 50000).unwrap();
    subscribe(&mut contract, eve(), 0, 0, 10000).unwrap();
    subscribe(&mut contract, eve(), 3 * DAY, 1, 50000).unwrap();
    assert_eq!(contract.withdraw(&alice(), DAY - 1), Ok(0));
    assert_eq!(contract.withdraw(&alice(), DAY), Ok(500));
    assert_eq!(contract.withdraw(&alice(), DAY), Ok(0));
    assert_eq!(contract.withdraw(&alice(), 30 * DAY), Ok(5000));
    assert_eq!(contract.withdraw(&alice(), 30 * DAY), Ok(0));
    assert_eq!(contract.withdraw(&alice(), 40 * DAY), Ok(5000));
    assert_eq!(contract.withdraw(&alice(), 40 * DAY), Ok(0));
    assert_eq!(contract.provider(&alice()).unwrap().payment_manager.length, 0);
}

#[test]
fn first_add_entry_works() {
    let mut contract = Subscrypt::new(0);
    contract
        .provider_register(
            &alice(),
            100,
            vec![DAY, DAY * 30, DAY * 300, DAY * 31],
            vec![2, 2, 2, 2],
            vec![10000, 50000, 10000, 10000],
            vec![50, 100, 200, 100],
            alice(),
        )
        .unwrap();
    subscribe(&mut contract, bob(), 0, 1, 50000).unwrap();
    subscribe(&mut contract, bob(), 0, 0, 10000).unwrap();
    subscribe(&mut contract, bob(), 0, 2, 10000).unwrap();
    subscribe(&mut contract, eve(), 0, 0, 10000).unwrap();
    subscribe(&mut contract, eve(), 0, 3, 10000).unwrap();
    assert_eq!(contract.user(&bob()).unwrap().list_of_providers[0], alice());
    let list = contract.provider(&alice()).unwrap().payment_manager;
    assert_eq!((list.head, list.back, list.length), (1, 300, 4));
    assert_eq!(list.locked, 5000 + 500 + 2000 + 500 + 1000);
    assert_eq!(contract.locked_on(&alice(), 1).unwrap().amount, 1000);
    assert_eq!(contract.locked_on(&alice(), 1).unwrap().next_day, 30);
    assert_eq!(contract.locked_on(&alice(), 30).unwrap().next_day, 31);
    assert_eq!(contract.locked_on(&alice(), 31).unwrap().next_day, 300);
    assert_eq!(contract.process(&alice(), 1000), Ok((9000, 300, 4)));
    assert_eq!(contract.process(&alice(), 30), Ok((6000, 31, 2)));
    assert_eq!(contract.withdraw(&alice(), 1000 * DAY), Ok(9000));
}

#[test]
fn payment_and_escrow_add_up_to_the_price() {
    let mut contract = Subscrypt::new(0);
    contract
        .provider_register(
            &alice(),
            100,
            vec![DAY, DAY, DAY, DAY],
            vec![1, 1, 1, 1],
            vec![50000, 999, 1, u128::MAX],
            vec![100, 333, 500, 1000],
            alice(),
        )
        .unwrap();
    let paid = subscribe(&mut contract, bob(), 0, 0, 50000).unwrap().amount;
    assert_eq!(paid + contract.locked_on(&alice(), 1).unwrap().amount, 50000);
    let paid = subscribe(&mut contract, bob(), 0, 1, 999).unwrap().amount;
    assert_eq!(paid, 666);
    assert_eq!(contract.locked_on(&alice(), 1).unwrap().amount, 5000 + 332);
    let paid = subscribe(&mut contract, bob(), 0, 2, 1).unwrap().amount;
    assert_eq!(paid, 0);
    assert_eq!(contract.locked_on(&alice(), 1).unwrap().amount, 5000 + 332);
    assert_eq!(subscribe(&mut contract, bob(), 0, 3, u128::MAX), Err(Error::EscrowOverflow));
}

#[test]
fn renew_works() {
    let mut contract = marketplace();
    subscribe(&mut contract, bob(), 0, 1, 50000).unwrap();
    assert_eq!(
        contract.plan_record(&bob(), &alice()).unwrap().subscription_records[0].refunded,
        false
    );
    let payout = contract.renew(&bob(), 50000, &alice(), 1, "value".to_string()).unwrap();
    assert_eq!(payout, RenewPayout { immediate: 45000, released: 5000, money_address: alice() });
    let history = contract.plan_record(&bob(), &alice()).unwrap();
    assert_eq!(history.subscription_records[1].provider, alice());
    assert_eq!(history.subscription_records[1].subscription_time, MONTH);
    assert_eq!(history.subscription_records[1].meta_data_encrypted, "value");
    assert_eq!(history.subscription_records[0].refunded, false);
    assert_eq!(contract.latest_place(&bob(), &alice(), 1), Some(1));
    assert_eq!(contract.locked_on(&alice(), 30).unwrap().amount, 0);
    assert_eq!(contract.locked_on(&alice(), 60).unwrap().amount, 5000);
    assert_eq!(contract.provider(&alice()).unwrap().payment_manager.locked, 5000);
    assert!(contract.check_subscription(&bob(), &alice(), 1, MONTH));
    assert!(contract.check_subscription(&bob(), &alice(), 1, 2 * MONTH - 1));
    assert!(!contract.check_subscription(&bob(), &alice(), 1, 2 * MONTH));
}

#[test]
fn renew_takes_the_terms_of_now() {
    let mut contract = marketplace();
    subscribe(&mut contract, bob(), 0, 0, 10000).unwrap();
    contract.edit_plan(&alice(), 0, 2 * DAY, 2, 20000, 250, false).unwrap();
    assert_eq!(
        contract.renew(&bob(), 10000, &alice(), 0, String::new()),
        Err(Error::WrongPayment)
    );
    let payout = contract.renew(&bob(), 20000, &alice(), 0, String::new()).unwrap();
    assert_eq!(payout, RenewPayout { immediate: 15000, released: 500, money_address: alice() });
    let history = contract.plan_record(&bob(), &alice()).unwrap();
    assert_eq!(history.subscription_records[1].subscription_time, DAY);
    assert_eq!(history.subscription_records[1].plan.duration, 2 * DAY);
    assert_eq!(contract.locked_on(&alice(), 1).unwrap().amount, 0);
    assert_eq!(contract.locked_on(&alice(), 3).unwrap().amount, 5000);
}

#[test]
fn renew_names_its_reasons() {
    let mut contract = marketplace();
    assert_eq!(
        contract.renew(&bob(), 50000, &alice(), 1, String::new()),
        Err(Error::NotSubscribed)
    );
    subscribe(&mut contract, bob(), 0, 1, 50000).unwrap();
    assert_eq!(
        contract.renew(&bob(), 10000, &alice(), 0, String::new()),
        Err(Error::NotSubscribed)
    );
    assert_eq!(
        contract.renew(&bob(), 49999, &alice(), 1, String::new()),
        Err(Error::WrongPayment)
    );
    contract.change_disable(&alice(), 1).unwrap();
    assert_eq!(
        contract.renew(&bob(), 50000, &alice(), 1, String::new()),
        Err(Error::PlanDisabled)
    );
    contract.change_disable(&alice(), 1).unwrap();
    assert_eq!(contract.withdraw(&alice(), 30 * DAY), Ok(5000));
    assert_eq!(
        contract.renew(&bob(), 50000, &alice(), 1, String::new()),
        Err(Error::EscrowMissing)
    );
    assert_eq!(contract.plan_record(&bob(), &alice()).unwrap().subscription_records.len(), 1);
    subscribe(&mut contract, bob(), 31 * DAY, 1, 50000).unwrap();
    contract.refund(&bob(), 31 * DAY, &alice(), 1).unwrap();
    assert_eq!(
        contract.renew(&bob(), 50000, &alice(), 1, String::new()),
        Err(Error::NotSubscribed)
    );
}

#[test]
fn renew_beyond_the_largest_time_is_rejected() {
    let mut contract = Subscrypt::new(0);
    contract
        .provider_register(&alice(), 100, vec![u64::MAX], vec![1], vec![1000], vec![500], alice())
        .unwrap();
    subscribe(&mut contract, bob(), 1, 0, 1000).unwrap();
    assert_eq!(
        contract.renew(&bob(), 1000, &alice(), 0, String::new()),
        Err(Error::TimeOverflow)
    );
    assert_eq!(contract.locked_on(&alice(), u64::MAX / DAY).unwrap().amount, 500);
}

#[test]
fn renew_into_the_same_day_bucket() {
    let mut contract = Subscrypt::new(0);
    contract
        .provider_register(&alice(), 100, vec![10], vec![1], vec![1000], vec![500], alice())
        .unwrap();
    subscribe(&mut contract, bob(), 0, 0, 1000).unwrap();
    let payout = contract.renew(&bob(), 1000, &alice(), 0, String::new()).unwrap();
    assert_eq!(payout, RenewPayout { immediate: 500, released: 500, money_address: alice() });
    assert_eq!(contract.locked_on(&alice(), 0).unwrap().amount, 500);
    assert_eq!(contract.provider(&alice()).unwrap().payment_manager.length, 1);
}

#[test]
fn test_refund_works() {
    let mut contract = marketplace();
    let mut balance_of_alice: u128 = 100;
    let mut balance_of_bob: u128 = 50000;
    let mut balance_of_contract: u128 = 50100;
    let owed = subscribe(&mut contract, bob(), 0, 1, 50000).unwrap();
    assert_eq!(owed.to, alice());
    balance_of_alice += owed.amount;
    balance_of_contract -= owed.amount;
    assert_eq!(
        contract.plan_record(&bob(), &alice()).unwrap().subscription_records[0].refunded,
        false
    );
    let payout = contract.refund(&bob(), 0, &alice(), 1).unwrap();
    assert_eq!(payout.money_address, alice());
    balance_of_alice += payout.provider_amount;
    balance_of_bob += payout.user_amount;
    balance_of_contract -= payout.provider_amount + payout.user_amount;
    assert_eq!(
        contract.plan_record(&bob(), &alice()).unwrap().subscription_records[0].refunded,
        true
    );
    assert_eq!(balance_of_alice, 45100);
    assert_eq!(balance_of_bob, 55000);
    assert_eq!(balance_of_contract, 100);
}

#[test]
fn test_withdraw_works() {
    let mut contract = Subscrypt::new(0);
    contract
        .provider_register(&alice(), 100, vec![DAY, 0], vec![2, 2], vec![10000, 50000], vec![50, 100], alice())
        .unwrap();
    subscribe(&mut contract, bob(), 0, 1, 50000).unwrap();
    assert_eq!(contract.user(&bob()).unwrap().list_of_providers[0], alice());
    assert!(!contract.check_subscription(&bob(), &alice(), 1, 0));
    let expected = contract.provider(&alice()).unwrap().payment_manager.locked;
    assert_eq!(expected, 5000);
    assert_eq!(contract.withdraw(&alice(), 0), Ok(expected));
    assert_eq!(contract.withdraw(&alice(), 0), Ok(0));
}

#[test]
fn test_subscribe_works() {
    let mut contract = marketplace();
    subscribe(&mut contract, bob(), 0, 1, 50000).unwrap();
    assert_eq!(contract.user(&bob()).unwrap().list_of_providers[0], alice());
}

#[test]
fn test_check_subscription_works() {
    let mut contract = marketplace();
    subscribe(&mut contract, bob(), 0, 1, 50000).unwrap();
    assert_eq!(contract.check_subscription(&bob(), &alice(), 1, 0), true);
    contract.refund(&bob(), 0, &alice(), 1).unwrap();
    assert_eq!(contract.check_subscription(&bob(), &alice(), 1, 0), false);
}

#[test]
fn lib_refund_works() {
    let mut contract = Subscrypt::new(0);
    contract
        .provider_register(&alice(), 100000, vec![DAY, 60 * 5], vec![2, 2], vec![10000, 50000], vec![50, 100], alice())
        .unwrap();
    subscribe(&mut contract, bob(), 0, 1, 50000).unwrap();
    assert_eq!(
        contract.plan_record(&bob(), &alice()).unwrap().subscription_records[0].refunded,
        false
    );
    contract.refund(&bob(), 0, &alice(), 1).unwrap();
    assert_eq!(
        contract.plan_record(&bob(), &alice()).unwrap().subscription_records[0].refunded,
        true
    );
}

#[test]
fn lib_check_subscription_works() {
    let mut contract = Subscrypt::new(0);
    contract
        .provider_register(
            &alice(),
            100000,
            vec![DAY, 60 * 600000 * 5],
            vec![2, 2],
            vec![10000, 50000],
            vec![50, 100],
            alice(),
        )
        .unwrap();
    subscribe(&mut contract, bob(), 0, 1, 50000).unwrap();
    assert_eq!(
        contract.plan_record(&bob(), &alice()).unwrap().subscription_records[0].refunded,
        false
    );
    assert_eq!(contract.check_subscription(&bob(), &alice(), 1, 0), true);
}

#[test]
fn lib_withdraw_works() {
    let mut contract = marketplace();
    subscribe(&mut contract, bob(), 0, 1, 50000).unwrap();
    assert_eq!(contract.user(&bob()).unwrap().list_of_providers[0], alice());
    assert_eq!(contract.withdraw(&alice(), 0), Ok(0));
}

#[test]
fn payments_are_told_before_they_are_owed() {
    let mut contract = marketplace();
    assert_eq!(
        contract.subscribe_payment(&bob(), 0, 50000, &alice(), 1),
        Ok(Transfer { to: alice(), amount: 45000 })
    );
    assert_eq!(
        contract.subscribe_payment(&bob(), 0, 50001, &alice(), 1),
        Err(Error::WrongPayment)
    );
    assert!(contract.user(&bob()).is_none());
    assert_eq!(contract.refund_payout(&bob(), 0, &alice(), 1), Err(Error::NotSubscribed));
    assert_eq!(contract.renew_payout(&bob(), 50000, &alice(), 1), Err(Error::NotSubscribed));
    let subscribed = subscribe(&mut contract, bob(), 0, 1, 50000);
    assert_eq!(subscribed, Ok(Transfer { to: alice(), amount: 45000 }));
    assert_eq!(
        contract.subscribe_payment(&bob(), 0, 50000, &alice(), 1),
        Err(Error::AlreadySubscribed)
    );
    let told = contract.renew_payout(&bob(), 50000, &alice(), 1);
    assert_eq!(told, Ok(RenewPayout { immediate: 45000, released: 5000, money_address: alice() }));
    let told = contract.refund_payout(&bob(), 2_584_224, &alice(), 1);
    assert_eq!(
        told,
        Ok(RefundPayout { user_amount: 150, provider_amount: 4850, money_address: alice() })
    );
    assert_eq!(contract.locked_on(&alice(), 30).unwrap().amount, 5000);
    assert_eq!(contract.refund(&bob(), 2_584_224, &alice(), 1), told);
    assert_eq!(contract.refund_payout(&bob(), 2_584_224, &alice(), 1), Err(Error::NotSubscribed));
}

#[test]
fn withdrawable_amount_is_what_withdraw_pays() {
    let mut contract = marketplace();
    assert_eq!(contract.withdrawable_amount(&bob(), 0), Err(Error::NotRegistered));
    subscribe(&mut contract, bob(), 0, 0, 10000).unwrap();
    subscribe(&mut contract, bob(), 0, 1, 50000).unwrap();
    assert_eq!(contract.withdrawable_amount(&alice(), DAY - 1), Ok(0));
    assert_eq!(contract.withdrawable_amount(&alice(), DAY), Ok(500));
    assert_eq!(contract.withdrawable_amount(&alice(), DAY), Ok(500));
    assert_eq!(contract.withdrawable_amount(&alice(), 30 * DAY), Ok(5500));
    assert_eq!(contract.withdraw(&alice(), DAY), Ok(500));
    assert_eq!(contract.withdrawable_amount(&alice(), DAY), Ok(0));
    assert_eq!(contract.withdrawable_amount(&alice(), 30 * DAY), Ok(5000));
    assert_eq!(contract.withdraw(&alice(), 30 * DAY), Ok(5000));
}

#[test]
fn times_and_prices_near_the_limits() {
    let mut contract = Subscrypt::new(0);
    contract
        .provider_register(
            &alice(),
            u128::MAX,
            vec![u64::MAX, 1],
            vec![1, 1],
            vec![u128::MAX, u128::MAX - 1],
            vec![1000, 0],
            alice(),
        )
        .unwrap();
    let transfer = subscribe(&mut contract, bob(), u64::MAX, 0, u128::MAX).unwrap();
    assert_eq!(transfer.amount, 0);
    let day = ((u64::MAX as u128 * 2) / 86400) as u64;
    assert_eq!(contract.locked_on(&alice(), day).unwrap().amount, u128::MAX);
    assert!(contract.check_subscription(&bob(), &alice(), 0, u64::MAX));
    let transfer = subscribe(&mut contract, eve(), u64::MAX, 1, u128::MAX - 1).unwrap();
    assert_eq!(transfer.amount, u128::MAX - 1);
    assert_eq!(contract.locked_on(&alice(), ((u64::MAX as u128 + 1) / 86400) as u64).unwrap().amount, 0);
    assert!(contract.check_subscription(&eve(), &alice(), 1, u64::MAX));
    assert_eq!(contract.withdrawable_amount(&alice(), u64::MAX), Ok(0));
    let payout = contract.refund(&bob(), u64::MAX, &alice(), 0).unwrap();
    assert_eq!(payout.user_amount, u128::MAX);
    assert_eq!(payout.provider_amount, 0);
    assert_eq!(contract.provider(&alice()).unwrap().payment_manager.locked, 0);
}

#[test]
fn permille_of_a_price_is_rounded_down() {
    let mut contract = Subscrypt::new(0);
    contract
        .provider_register(
            &alice(),
            100,
            vec![1000, 1000, 1000],
            vec![1, 1, 1],
            vec![1999, 1, 123_456_789],
            vec![1, 999, 777],
            alice(),
        )
        .unwrap();
    assert_eq!(subscribe(&mut contract, bob(), 0, 0, 1999).unwrap().amount, 1997);
    assert_eq!(contract.provider(&alice()).unwrap().payment_manager.locked, 1);
    assert_eq!(subscribe(&mut contract, bob(), 0, 1, 1).unwrap().amount, 0);
    assert_eq!(contract.provider(&alice()).unwrap().payment_manager.locked, 1);
    assert_eq!(subscribe(&mut contract, bob(), 0, 2, 123_456_789).unwrap().amount, 27_530_863);
    assert_eq!(contract.provider(&alice()).unwrap().payment_manager.locked, 1 + 95_925_925);
    let payout = contract.refund(&bob(), 500, &alice(), 2).unwrap();
    assert_eq!(payout.user_amount, 61_728_394);
    assert_eq!(payout.provider_amount, 34_197_530);
}
