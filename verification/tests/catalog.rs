#![allow(non_snake_case)]

use subscrypt::{AccountId, Error, LinkedList, Subscrypt};

const DAY: u64 = 60 * 60 * 24;

fn alice() -> AccountId {
    AccountId::new([0x01; 32])
}

fn bob() -> AccountId {
    AccountId::new([0x02; 32])
}

fn register(contract: &mut Subscrypt, account: AccountId, paid: u128) -> Result<(), Error> {
    contract.provider_register(
        &account,
        paid,
        vec![DAY, DAY * 30],
        vec![2, 2],
        vec![10000, 50000],
        vec![50, 100],
        account,
    )
}

fn check_plans(
    contract: &Subscrypt,
    account: AccountId,
    durations: &[u64],
    limits: &[u128],
    prices: &[u128],
    policies: &[u128],
) {
    let provider = contract.provider(&account).unwrap();
    assert_eq!(provider.plans.len(), durations.len());
    for i in 0..durations.len() {
        assert_eq!(provider.plans[i].duration, durations[i]);
        assert_eq!(provider.plans[i].active_session_limit, limits[i]);
        assert_eq!(provider.plans[i].price, prices[i]);
        assert_eq!(provider.plans[i].max_refund_percent_policy, policies[i]);
    }
    assert_eq!(provider.money_address, account);
}

#[test]
fn test_constructor_works() {
    let contract = Subscrypt::new(0);
    assert_eq!(contract.provider_register_fee, 100);
}

#[test]
fn test_default_works() {
    let contract = Subscrypt::default(0);
    assert_eq!(contract.provider_register_fee, 100);
}

#[test]
fn constructor_keeps_the_start_time() {
    let contract = Subscrypt::new(1_600_000_000);
    assert_eq!(contract.start_time, 1_600_000_000);
    assert!(contract.provider(&alice()).is_none());
    assert!(contract.user(&alice()).is_none());
}

#[test]
fn linked_list_works() {
    let linked = LinkedList::new();
    assert_eq!(linked.back, 0);
}

#[test]
fn linked_list_default_works() {
    let linked = LinkedList::default();
    assert_eq!(linked.back, 0);
}

#[test]
fn first_linked_List_works() {
    let linked = LinkedList::new();
    assert_eq!(linked.back, 0);
}

#[test]
fn linked_List_default_works() {
    let linked = LinkedList::default();
    assert_eq!(linked.back, 0);
    assert_eq!(linked.head, 0);
    assert_eq!(linked.length, 0);
    assert_eq!(linked.locked, 0);
}

#[test]
fn first_provider_register_works() {
    let mut contract = Subscrypt::new(0);
    assert_eq!(register(&mut contract, alice(), 100), Ok(()));
    check_plans(&contract, alice(), &[DAY, DAY * 30], &[2, 2], &[10000, 50000], &[50, 100]);
    let provider = contract.provider(&alice()).unwrap();
    assert!(!provider.plans[0].disabled);
    assert!(!provider.plans[1].disabled);
    assert_eq!(provider.payment_manager, LinkedList::new());
}

#[test]
#[should_panic]
fn provider_register_works2() {
    let mut contract = Subscrypt::new(0);
    register(&mut contract, alice(), 90).unwrap();
}

#[test]
#[should_panic]
fn provider_register_works3() {
    let mut contract = Subscrypt::new(0);
    contract
        .provider_register(&alice(), 90, vec![DAY], vec![2, 2], vec![10000, 50000], vec![50, 100], alice())
        .unwrap();
}

#[test]
#[should_panic]
fn provider_register_fails_insufficient_payment() {
    let mut contract = Subscrypt::new(0);
    register(&mut contract, alice(), 90).unwrap();
}

#[test]
#[should_panic]
fn provider_register_fails_wrong_arguments() {
    let mut contract = Subscrypt::new(0);
    contract
        .provider_register(&alice(), 100, vec![DAY], vec![2, 2], vec![10000, 50000], vec![50, 100], alice())
        .unwrap();
}

#[test]
fn registration_below_the_fee_is_rejected() {
    let mut contract = Subscrypt::new(0);
    assert_eq!(register(&mut contract, alice(), 99), Err(Error::InsufficientRegistrationFee));
    assert!(contract.provider(&alice()).is_none());
}

#[test]
fn registration_twice_is_rejected() {
    let mut contract = Subscrypt::new(0);
    assert_eq!(register(&mut contract, alice(), 100), Ok(()));
    assert_eq!(register(&mut contract, alice(), 100), Err(Error::AlreadyRegistered));
}

#[test]
fn registration_with_unequal_vectors_is_rejected() {
    let mut contract = Subscrypt::new(0);
    let done = contract.provider_register(
        &alice(),
        100,
        vec![DAY],
        vec![2, 2],
        vec![10000, 50000],
        vec![50, 100],
        alice(),
    );
    assert_eq!(done, Err(Error::MismatchedPlanVectors));
    assert!(contract.provider(&alice()).is_none());
}

#[test]
fn registration_with_a_policy_above_1000_is_rejected() {
    let mut contract = Subscrypt::new(0);
    let done =
        contract.provider_register(&alice(), 100, vec![DAY], vec![2], vec![10000], vec![1001], alice());
    assert_eq!(done, Err(Error::InvalidRefundPolicy));
    let done =
        contract.provider_register(&alice(), 100, vec![DAY], vec![2], vec![10000], vec![1000], alice());
    assert_eq!(done, Ok(()));
}

#[test]
fn money_address_may_differ_from_the_provider() {
    let mut contract = Subscrypt::new(0);
    contract
        .provider_register(&alice(), 100, vec![DAY], vec![2], vec![10000], vec![50], bob())
        .unwrap();
    assert_eq!(contract.provider(&alice()).unwrap().money_address, bob());
    assert!(contract.provider(&bob()).is_none());
}

#[test]
fn first_edit_plan_works() {
    let mut contract = Subscrypt::new(0);
    register(&mut contract, alice(), 100).unwrap();
    assert_eq!(contract.edit_plan(&alice(), 1, DAY * 10, 3, 100000, 500, false), Ok(()));
    let provider = contract.provider(&alice()).unwrap();
    assert_eq!(provider.plans[1].duration, DAY * 10);
    assert_eq!(provider.plans[1].active_session_limit, 3);
    assert_eq!(provider.plans[1].price, 100000);
    assert_eq!(provider.plans[1].max_refund_percent_policy, 500);
    assert_eq!(provider.plans[1].disabled, false);
    assert_eq!(provider.plans[0].duration, DAY);
    assert_eq!(provider.plans[0].price, 10000);
}

#[test]
#[should_panic]
fn edit_plan_works2() {
    let mut contract = Subscrypt::new(0);
    register(&mut contract, alice(), 100).unwrap();
    contract.edit_plan(&alice(), 2, DAY * 10, 3, 100000, 500, false).unwrap();
}

#[test]
#[should_panic]
fn edit_plan_fails_invalid_plan_index() {
    let mut contract = Subscrypt::new(0);
    register(&mut contract, alice(), 100).unwrap();
    contract.edit_plan(&alice(), 2, DAY * 10, 3, 100000, 500, false).unwrap();
}

#[test]
fn edit_plan_names_its_reasons() {
    let mut contract = Subscrypt::new(0);
    assert_eq!(
        contract.edit_plan(&alice(), 0, DAY, 1, 1, 1, false),
        Err(Error::NotRegistered)
    );
    register(&mut contract, alice(), 100).unwrap();
    assert_eq!(
        contract.edit_plan(&alice(), 2, DAY, 1, 1, 1, false),
        Err(Error::InvalidPlanIndex)
    );
    assert_eq!(
        contract.edit_plan(&alice(), u128::MAX, DAY, 1, 1, 1, false),
        Err(Error::InvalidPlanIndex)
    );
    assert_eq!(
        contract.edit_plan(&alice(), 1, DAY, 1, 1, 1001, false),
        Err(Error::InvalidRefundPolicy)
    );
    check_plans(&contract, alice(), &[DAY, DAY * 30], &[2, 2], &[10000, 50000], &[50, 100]);
}

#[test]
fn first_add_plan_works() {
    let mut contract = Subscrypt::new(0);
    register(&mut contract, alice(), 100).unwrap();
    assert_eq!(
        contract.add_plan(&alice(), vec![DAY * 10], vec![3], vec![100000], vec![500]),
        Ok(())
    );
    check_plans(
        &contract,
        alice(),
        &[DAY, DAY * 30, DAY * 10],
        &[2, 2, 3],
        &[10000, 50000, 100000],
        &[50, 100, 500],
    );
}

#[test]
#[should_panic]
fn add_plan_works2() {
    let mut contract = Subscrypt::new(0);
    register(&mut contract, alice(), 100).unwrap();
    contract
        .add_plan(&alice(), vec![DAY * 10], vec![3, 2], vec![100000], vec![500])
        .unwrap();
}

#[test]
#[should_panic]
fn add_plan_fails_wrong_arguments() {
    let mut contract = Subscrypt::new(0);
    register(&mut contract, alice(), 100).unwrap();
    contract
        .add_plan(&alice(), vec![DAY * 10], vec![3, 2], vec![100000], vec![500])
        .unwrap();
}

#[test]
fn add_plan_names_its_reasons() {
    let mut contract = Subscrypt::new(0);
    assert_eq!(
        contract.add_plan(&alice(), vec![DAY], vec![3, 2], vec![1], vec![5]),
        Err(Error::MismatchedPlanVectors)
    );
    assert_eq!(
        contract.add_plan(&alice(), vec![DAY], vec![3], vec![1], vec![5]),
        Err(Error::NotRegistered)
    );
    register(&mut contract, alice(), 100).unwrap();
    assert_eq!(
        contract.add_plan(&alice(), vec![DAY, DAY], vec![3, 3], vec![1, 1], vec![5, 2000]),
        Err(Error::InvalidRefundPolicy)
    );
    check_plans(&contract, alice(), &[DAY, DAY * 30], &[2, 2], &[10000, 50000], &[50, 100]);
    assert_eq!(contract.add_plan(&alice(), vec![], vec![], vec![], vec![]), Ok(()));
    check_plans(&contract, alice(), &[DAY, DAY * 30], &[2, 2], &[10000, 50000], &[50, 100]);
}

#[test]
fn first_change_disable_works() {
    let mut contract = Subscrypt::new(0);
    register(&mut contract, alice(), 100).unwrap();
    assert_eq!(contract.provider(&alice()).unwrap().plans[1].disabled, false);
    contract.change_disable(&alice(), 1).unwrap();
    assert_eq!(contract.provider(&alice()).unwrap().plans[1].disabled, true);
    assert_eq!(contract.provider(&alice()).unwrap().plans[0].disabled, false);
    contract.change_disable(&alice(), 1).unwrap();
    assert_eq!(contract.provider(&alice()).unwrap().plans[1].disabled, false);
}

#[test]
fn change_disable_names_its_reasons() {
    let mut contract = Subscrypt::new(0);
    assert_eq!(contract.change_disable(&alice(), 0), Err(Error::NotRegistered));
    register(&mut contract, alice(), 100).unwrap();
    assert_eq!(contract.change_disable(&alice(), 2), Err(Error::InvalidPlanIndex));
}
