use subscrypt::{AccountId, DailyLockedAmount, Error, Subscrypt};

fn account(byte: u8) -> AccountId {
    AccountId::new([byte; 32])
}

fn with_provider() -> (Subscrypt, AccountId) {
    let mut contract = Subscrypt::new(0);
    let alice = account(1);
    contract
        .provider_register(&alice, 100, vec![86400], vec![2], vec![10000], vec![50], alice)
        .unwrap();
    (contract, alice)
}

fn chain(contract: &Subscrypt, provider: &AccountId) -> Vec<(u64, u128)> {
    let list = contract.provider(provider).unwrap().payment_manager;
    let mut days = Vec::new();
    let mut day = list.head;
    for _ in 0..list.length {
        let bucket = contract.locked_on(provider, day).unwrap();
        days.push((day, bucket.amount));
        day = bucket.next_day;
    }
    days
}

#[test]
fn first_bucket_is_head_and_back() {
    let (mut contract, alice) = with_provider();
    assert_eq!(contract.add_entry(&alice, 7, 10), Ok(()));
    let list = contract.provider(&alice).unwrap().payment_manager;
    assert_eq!((list.head, list.back, list.length, list.locked), (7, 7, 1, 10));
    assert_eq!(
        contract.locked_on(&alice, 7),
        Some(DailyLockedAmount { amount: 10, next_day: 7 })
    );
}

#[test]
fn earlier_day_becomes_the_head() {
    let (mut contract, alice) = with_provider();
    contract.add_entry(&alice, 7, 10).unwrap();
    contract.add_entry(&alice, 3, 5).unwrap();
    let list = contract.provider(&alice).unwrap().payment_manager;
    assert_eq!((list.head, list.back, list.length, list.locked), (3, 7, 2, 15));
    assert_eq!(
        contract.locked_on(&alice, 3),
        Some(DailyLockedAmount { amount: 5, next_day: 7 })
    );
}

#[test]
fn later_day_becomes_the_back() {
    let (mut contract, alice) = with_provider();
    contract.add_entry(&alice, 7, 10).unwrap();
    contract.add_entry(&alice, 9, 5).unwrap();
    let list = contract.provider(&alice).unwrap().payment_manager;
    assert_eq!((list.head, list.back, list.length, list.locked), (7, 9, 2, 15));
    assert_eq!(
        contract.locked_on(&alice, 7),
        Some(DailyLockedAmount { amount: 10, next_day: 9 })
    );
    assert_eq!(
        contract.locked_on(&alice, 9),
        Some(DailyLockedAmount { amount: 5, next_day: 9 })
    );
}

#[test]
fn day_between_two_days_is_spliced_in() {
    let (mut contract, alice) = with_provider();
    contract.add_entry(&alice, 3, 1).unwrap();
    contract.add_entry(&alice, 9, 2).unwrap();
    contract.add_entry(&alice, 5, 4).unwrap();
    contract.add_entry(&alice, 7, 8).unwrap();
    contract.add_entry(&alice, 4, 16).unwrap();
    assert_eq!(chain(&contract, &alice), vec![(3, 1), (4, 16), (5, 4), (7, 8), (9, 2)]);
    let list = contract.provider(&alice).unwrap().payment_manager;
    assert_eq!((list.head, list.back, list.length, list.locked), (3, 9, 5, 31));
}

#[test]
fn same_day_adds_to_its_bucket() {
    let (mut contract, alice) = with_provider();
    contract.add_entry(&alice, 3, 1).unwrap();
    contract.add_entry(&alice, 5, 2).unwrap();
    contract.add_entry(&alice, 9, 4).unwrap();
    contract.add_entry(&alice, 3, 10).unwrap();
    contract.add_entry(&alice, 5, 20).unwrap();
    contract.add_entry(&alice, 9, 40).unwrap();
    assert_eq!(chain(&contract, &alice), vec![(3, 11), (5, 22), (9, 44)]);
    assert_eq!(contract.provider(&alice).unwrap().payment_manager.locked, 77);
}

#[test]
fn locking_for_an_unknown_provider_is_rejected() {
    let (mut contract, _) = with_provider();
    assert_eq!(contract.add_entry(&account(9), 3, 1), Err(Error::ProviderNotFound));
    assert_eq!(contract.locked_on(&account(9), 3), None);
}

#[test]
fn locking_beyond_the_largest_balance_is_rejected() {
    let (mut contract, alice) = with_provider();
    contract.add_entry(&alice, 3, u128::MAX - 5).unwrap();
    assert_eq!(contract.add_entry(&alice, 4, 6), Err(Error::EscrowOverflow));
    assert_eq!(contract.add_entry(&alice, 3, 6), Err(Error::EscrowOverflow));
    assert_eq!(chain(&contract, &alice), vec![(3, u128::MAX - 5)]);
    assert_eq!(contract.add_entry(&alice, 4, 5), Ok(()));
    assert_eq!(contract.provider(&alice).unwrap().payment_manager.locked, u128::MAX);
}

#[test]
fn taking_back_keeps_the_bucket() {
    let (mut contract, alice) = with_provider();
    contract.add_entry(&alice, 3, 10).unwrap();
    contract.add_entry(&alice, 5, 20).unwrap();
    assert_eq!(contract.remove_entry(&alice, 3, 4), Ok(()));
    assert_eq!(chain(&contract, &alice), vec![(3, 6), (5, 20)]);
    assert_eq!(contract.remove_entry(&alice, 3, 6), Ok(()));
    assert_eq!(chain(&contract, &alice), vec![(3, 0), (5, 20)]);
    let list = contract.provider(&alice).unwrap().payment_manager;
    assert_eq!((list.head, list.back, list.length, list.locked), (3, 5, 2, 20));
}

#[test]
fn taking_back_too_much_is_rejected() {
    let (mut contract, alice) = with_provider();
    contract.add_entry(&alice, 3, 10).unwrap();
    assert_eq!(contract.remove_entry(&alice, 3, 11), Err(Error::EscrowMissing));
    assert_eq!(contract.remove_entry(&alice, 4, 1), Err(Error::EscrowMissing));
    assert_eq!(contract.remove_entry(&account(9), 3, 1), Err(Error::ProviderNotFound));
    assert_eq!(chain(&contract, &alice), vec![(3, 10)]);
}

#[test]
fn process_tells_what_a_release_would_take() {
    let (mut contract, alice) = with_provider();
    assert_eq!(contract.process(&alice, 5), Ok((0, 0, 0)));
    contract.add_entry(&alice, 5, 10).unwrap();
    contract.add_entry(&alice, 3, 20).unwrap();
    contract.add_entry(&alice, 9, 40).unwrap();
    assert_eq!(contract.process(&alice, 2), Ok((0, 3, 0)));
    assert_eq!(contract.process(&alice, 3), Ok((20, 5, 1)));
    assert_eq!(contract.process(&alice, 8), Ok((30, 9, 2)));
    assert_eq!(contract.process(&alice, 9), Ok((70, 9, 3)));
    assert_eq!(contract.process(&alice, 8), Ok((30, 9, 2)));
    assert_eq!(chain(&contract, &alice), vec![(3, 20), (5, 10), (9, 40)]);
    assert_eq!(contract.process(&account(7), 5), Err(Error::ProviderNotFound));
}

#[test]
fn process_and_release_agree() {
    let (mut contract, alice) = with_provider();
    contract.add_entry(&alice, 5, 10).unwrap();
    contract.add_entry(&alice, 3, 20).unwrap();
    contract.add_entry(&alice, 9, 40).unwrap();
    for cutoff in [1, 3, 4, 9, 12] {
        let told = contract.process(&alice, cutoff);
        assert_eq!(contract.release(&alice, cutoff), told);
        assert_eq!(contract.provider(&alice).unwrap().payment_manager.head, told.unwrap().1);
    }
}

#[test]
fn refusals_tell_what_would_be_rejected() {
    let (mut contract, alice) = with_provider();
    assert_eq!(contract.add_entry_refusal(&account(9), 3, 1), Some(Error::ProviderNotFound));
    assert_eq!(contract.add_entry_refusal(&alice, 3, u128::MAX), None);
    assert_eq!(contract.remove_entry_refusal(&alice, 3, 0), Some(Error::EscrowMissing));
    assert_eq!(contract.remove_entry_refusal(&account(9), 3, 0), Some(Error::ProviderNotFound));
    contract.add_entry(&alice, 3, 10).unwrap();
    assert_eq!(contract.add_entry_refusal(&alice, 4, u128::MAX - 9), Some(Error::EscrowOverflow));
    assert_eq!(contract.add_entry_refusal(&alice, 4, u128::MAX - 10), None);
    assert_eq!(contract.remove_entry_refusal(&alice, 3, 10), None);
    assert_eq!(contract.remove_entry_refusal(&alice, 3, 11), Some(Error::EscrowMissing));
    assert_eq!(chain(&contract, &alice), vec![(3, 10)]);
}

#[test]
fn release_sums_what_has_matured() {
    let (mut contract, alice) = with_provider();
    contract.add_entry(&alice, 5, 10).unwrap();
    contract.add_entry(&alice, 3, 20).unwrap();
    contract.add_entry(&alice, 9, 40).unwrap();
    contract.add_entry(&alice, 4, 1).unwrap();
    contract.add_entry(&alice, 5, 2).unwrap();
    assert_eq!(contract.release(&alice, 2), Ok((0, 3, 0)));
    assert_eq!(contract.release(&alice, 5), Ok((33, 9, 3)));
    assert_eq!(chain(&contract, &alice), vec![(9, 40)]);
    assert_eq!(contract.locked_on(&alice, 3), None);
    assert_eq!(contract.locked_on(&alice, 4), None);
    assert_eq!(contract.locked_on(&alice, 5), None);
    let list = contract.provider(&alice).unwrap().payment_manager;
    assert_eq!((list.head, list.back, list.length, list.locked), (9, 9, 1, 40));
}

#[test]
fn release_is_idempotent() {
    let (mut contract, alice) = with_provider();
    contract.add_entry(&alice, 5, 10).unwrap();
    contract.add_entry(&alice, 9, 40).unwrap();
    assert_eq!(contract.release(&alice, 5), Ok((10, 9, 1)));
    assert_eq!(contract.release(&alice, 5), Ok((0, 9, 0)));
    assert_eq!(contract.release(&alice, 4), Ok((0, 9, 0)));
    assert_eq!(contract.release(&alice, 100), Ok((40, 9, 1)));
    assert_eq!(contract.release(&alice, 100), Ok((0, 9, 0)));
    assert_eq!(contract.provider(&alice).unwrap().payment_manager.length, 0);
}

#[test]
fn release_of_the_cutoff_day_itself() {
    let (mut contract, alice) = with_provider();
    contract.add_entry(&alice, 5, 10).unwrap();
    assert_eq!(contract.release(&alice, 4), Ok((0, 5, 0)));
    assert_eq!(contract.release(&alice, 5), Ok((10, 5, 1)));
}

#[test]
fn chain_starts_again_after_a_full_release() {
    let (mut contract, alice) = with_provider();
    contract.add_entry(&alice, 5, 10).unwrap();
    contract.add_entry(&alice, 6, 10).unwrap();
    assert_eq!(contract.release(&alice, 10), Ok((20, 6, 2)));
    contract.add_entry(&alice, 2, 7).unwrap();
    assert_eq!(chain(&contract, &alice), vec![(2, 7)]);
    let list = contract.provider(&alice).unwrap().payment_manager;
    assert_eq!((list.head, list.back, list.length, list.locked), (2, 2, 1, 7));
}

#[test]
fn release_for_unknown_provider_is_rejected() {
    let (mut contract, _) = with_provider();
    assert_eq!(contract.release(&account(7), 5), Err(Error::ProviderNotFound));
}

#[test]
fn round_trip_leaves_nothing_to_release() {
    let (mut contract, alice) = with_provider();
    contract.add_entry(&alice, 4, 3).unwrap();
    contract.add_entry(&alice, 8, 5000).unwrap();
    contract.remove_entry(&alice, 8, 5000).unwrap();
    assert_eq!(contract.locked_on(&alice, 8).unwrap().amount, 0);
    assert_eq!(contract.release(&alice, 8), Ok((3, 8, 2)));
}

#[test]
fn providers_do_not_share_buckets() {
    let (mut contract, alice) = with_provider();
    let bob = account(2);
    contract
        .provider_register(&bob, 100, vec![86400], vec![2], vec![10000], vec![50], bob)
        .unwrap();
    contract.add_entry(&alice, 5, 10).unwrap();
    contract.add_entry(&bob, 5, 70).unwrap();
    contract.add_entry(&bob, 2, 1).unwrap();
    assert_eq!(chain(&contract, &alice), vec![(5, 10)]);
    assert_eq!(chain(&contract, &bob), vec![(2, 1), (5, 70)]);
    assert_eq!(contract.release(&alice, 9), Ok((10, 5, 1)));
    assert_eq!(chain(&contract, &bob), vec![(2, 1), (5, 70)]);
    assert_eq!(contract.release(&bob, 9), Ok((71, 5, 2)));
}
