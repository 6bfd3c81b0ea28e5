use subscrypt::{AccountId, Error, Subscrypt};

fn alice() -> AccountId {
    AccountId::new([0x01; 32])
}

fn bob() -> AccountId {
    AccountId::new([0x02; 32])
}

#[test]
fn username_finds_the_account_that_claimed_it() {
    let mut contract = Subscrypt::new(0);
    assert_eq!(contract.account_of(&"alice".to_string()), None);
    assert_eq!(contract.username_of(&alice()), None);
    assert_eq!(contract.register_username(&alice(), "alice".to_string()), Ok(()));
    assert_eq!(contract.account_of(&"alice".to_string()), Some(alice()));
    assert_eq!(contract.username_of(&alice()), Some("alice".to_string()));
    assert_eq!(contract.account_of(&"Alice".to_string()), None);
    assert_eq!(contract.username_of(&bob()), None);
}

#[test]
fn username_belongs_to_the_first_claim() {
    let mut contract = Subscrypt::new(0);
    contract.register_username(&alice(), "name".to_string()).unwrap();
    assert_eq!(contract.register_username(&bob(), "name".to_string()), Err(Error::UsernameTaken));
    assert_eq!(contract.account_of(&"name".to_string()), Some(alice()));
    assert_eq!(contract.username_of(&bob()), None);
    assert_eq!(contract.register_username(&bob(), "other".to_string()), Ok(()));
    assert_eq!(contract.account_of(&"other".to_string()), Some(bob()));
    assert_eq!(contract.username_of(&bob()), Some("other".to_string()));
}

#[test]
fn account_keeps_its_first_username() {
    let mut contract = Subscrypt::new(0);
    contract.register_username(&alice(), "first".to_string()).unwrap();
    assert_eq!(contract.register_username(&alice(), "second".to_string()), Err(Error::AlreadyNamed));
    assert_eq!(contract.username_of(&alice()), Some("first".to_string()));
    assert_eq!(contract.account_of(&"second".to_string()), None);
    assert_eq!(contract.register_username(&alice(), "first".to_string()), Ok(()));
    assert_eq!(contract.username_of(&alice()), Some("first".to_string()));
    assert_eq!(contract.account_of(&"first".to_string()), Some(alice()));
}

#[test]
fn usernames_do_not_touch_the_books() {
    let mut contract = Subscrypt::new(0);
    contract
        .provider_register(&alice(), 100, vec![86400], vec![1], vec![1000], vec![500], alice())
        .unwrap();
    contract.subscribe(&bob(), 0, 1000, &alice(), 0, [0; 32], String::new()).unwrap();
    contract.register_username(&bob(), String::new()).unwrap();
    assert_eq!(contract.account_of(&String::new()), Some(bob()));
    assert_eq!(contract.user(&bob()).unwrap().list_of_providers, vec![alice()]);
    assert_eq!(contract.provider(&alice()).unwrap().payment_manager.locked, 500);
    assert!(contract.check_subscription(&bob(), &alice(), 0, 0));
}
