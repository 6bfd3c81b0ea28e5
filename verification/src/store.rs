//! The contract's storage tables.
//!
//! Each table is a storage hash map, `ink_storage::collections::HashMap`. The
//! verifier does not look into such a map: what a table holds is named by a
//! specification function without a body, and the operations that the contract
//! needs are functions whose bodies are the calls into the map and whose
//! contracts, stated over that name, are trusted. A table stores the fields of
//! a record as a tuple; a call that takes or hands out a record converts field
//! by field.

use vstd::prelude::*;
use crate::account::AccountId;
use crate::plan::PlanConsts;
use crate::record::{
    DailyLockedAmount, LinkedList, PlanRecord, PlanRecordView, Provider, ProviderView,
    SubscriptionRecord, User, UserView,
};

verus! {

/// The escrow buckets of all providers, keyed by provider and day.
#[verifier::external_body]
pub struct BucketTable {
    inner: ink_storage::collections::HashMap<([u8; 32], u64), (u128, u64)>,
}

/// The buckets that a bucket table holds.
pub uninterp spec fn bucket_entries(table: BucketTable) -> Map<(AccountId, u64), DailyLockedAmount>;

impl BucketTable {
    /// Calls `ink_storage::collections::HashMap::new`. Trusted: the new table
    /// holds nothing.
    #[verifier::external_body]
    pub(crate) fn new() -> (table: BucketTable)
        ensures
            bucket_entries(table) == (Map::<(AccountId, u64), DailyLockedAmount>::empty()),
    {
        BucketTable { inner: ink_storage::collections::HashMap::new() }
    }

    /// Calls `ink_storage::collections::HashMap::len`. Trusted: the result is
    /// the number of keys that the table holds.
    #[verifier::external_body]
    pub(crate) fn len(&self) -> (size: u32)
        ensures
            size == bucket_entries(*self).dom().len(),
    {
        self.inner.len()
    }

    /// Calls `ink_storage::collections::HashMap::get`. Trusted: the result is a
    /// copy of the bucket that the table holds under the key, and `None` where
    /// it holds none.
    #[verifier::external_body]
    pub(crate) fn get(&self, provider: &AccountId, day: u64) -> (found: Option<DailyLockedAmount>)
        ensures
            found == (if bucket_entries(*self).contains_key((*provider, day)) {
                Some(bucket_entries(*self)[(*provider, day)])
            } else {
                None
            }),
    {
        self.inner.get(&(provider.bytes, day)).map(
            |stored| DailyLockedAmount { amount: stored.0, next_day: stored.1 },
        )
    }

    /// Calls `ink_storage::collections::HashMap::insert`. Trusted: afterwards
    /// the table holds what it held, with the bucket under the key in place of
    /// what was there. The map counts its keys in a `u32`, so a new key is
    /// asked to find fewer than `u32::MAX` keys.
    #[verifier::external_body]
    pub(crate) fn insert(&mut self, provider: &AccountId, day: u64, bucket: DailyLockedAmount)
        requires
            bucket_entries(*old(self)).contains_key((*provider, day)) || bucket_entries(
                *old(self),
            ).dom().len() < u32::MAX,
        ensures
            bucket_entries(*final(self)) == bucket_entries(*old(self)).insert(
                (*provider, day),
                bucket,
            ),
    {
        self.inner.insert((provider.bytes, day), (bucket.amount, bucket.next_day));
    }

    /// Calls `ink_storage::collections::HashMap::take`. Trusted: afterwards the
    /// table holds what it held, without the key.
    #[verifier::external_body]
    pub(crate) fn take(&mut self, provider: &AccountId, day: u64)
        ensures
            bucket_entries(*final(self)) == bucket_entries(*old(self)).remove((*provider, day)),
    {
        self.inner.take(&(provider.bytes, day));
    }
}

/// The providers, keyed by their account.
#[verifier::external_body]
pub struct ProviderTable {
    inner: ink_storage::collections::HashMap<
        [u8; 32],
        (Vec<(u64, u128, u128, u128, bool)>, [u8; 32], (u64, u64, u128, u128)),
    >,
}

/// The providers that a provider table holds.
pub uninterp spec fn provider_entries(table: ProviderTable) -> Map<AccountId, ProviderView>;

impl ProviderTable {
    /// Calls `ink_storage::collections::HashMap::new`. Trusted: the new table
    /// holds nothing.
    #[verifier::external_body]
    pub(crate) fn new() -> (table: ProviderTable)
        ensures
            provider_entries(table) == (Map::<AccountId, ProviderView>::empty()),
    {
        ProviderTable { inner: ink_storage::collections::HashMap::new() }
    }

    /// Calls `ink_storage::collections::HashMap::len`. Trusted: the result is
    /// the number of keys that the table holds.
    #[verifier::external_body]
    pub(crate) fn len(&self) -> (size: u32)
        ensures
            size == provider_entries(*self).dom().len(),
    {
        self.inner.len()
    }

    /// Calls `ink_storage::collections::HashMap::get`. Trusted: the result is a
    /// copy of the provider that the table holds under the key, and `None`
    /// where it holds none.
    #[verifier::external_body]
    pub(crate) fn get(&self, id: &AccountId) -> (found: Option<Provider>)
        ensures
            found.is_some() == provider_entries(*self).contains_key(*id),
            found.is_some() ==> found.unwrap()@ == provider_entries(*self)[*id],
    {
        self.inner.get(&id.bytes).map(|stored| Provider {
            plans: stored.0.iter().map(|plan| PlanConsts::from_parts(*plan)).collect(),
            money_address: AccountId { bytes: stored.1 },
            payment_manager: LinkedList::from_parts(stored.2),
        })
    }

    /// Calls `ink_storage::collections::HashMap::insert`. Trusted: afterwards
    /// the table holds what it held, with the provider under the key in place of
    /// what was there. The map counts its keys in a `u32`, so a new key is
    /// asked to find fewer than `u32::MAX` keys.
    #[verifier::external_body]
    pub(crate) fn insert(&mut self, id: &AccountId, provider: &Provider)
        requires
            provider_entries(*old(self)).contains_key(*id) || provider_entries(
                *old(self),
            ).dom().len() < u32::MAX,
        ensures
            provider_entries(*final(self)) == provider_entries(*old(self)).insert(*id, provider@),
    {
        let plans = provider.plans.iter().map(|plan| plan.parts()).collect();
        let stored = (plans, provider.money_address.bytes, provider.payment_manager.parts());
        self.inner.insert(id.bytes, stored);
    }
}

/// The users, keyed by their account.
#[verifier::external_body]
pub struct UserTable {
    inner: ink_storage::collections::HashMap<[u8; 32], (Vec<[u8; 32]>, [u8; 32])>,
}

/// The users that a user table holds.
pub uninterp spec fn user_entries(table: UserTable) -> Map<AccountId, UserView>;

impl UserTable {
    /// Calls `ink_storage::collections::HashMap::new`. Trusted: the new table
    /// holds nothing.
    #[verifier::external_body]
    pub(crate) fn new() -> (table: UserTable)
        ensures
            user_entries(table) == (Map::<AccountId, UserView>::empty()),
    {
        UserTable { inner: ink_storage::collections::HashMap::new() }
    }

    /// Calls `ink_storage::collections::HashMap::len`. Trusted: the result is
    /// the number of keys that the table holds.
    #[verifier::external_body]
    pub(crate) fn len(&self) -> (size: u32)
        ensures
            size == user_entries(*self).dom().len(),
    {
        self.inner.len()
    }

    /// Calls `ink_storage::collections::HashMap::get`. Trusted: the result is a
    /// copy of the user that the table holds under the key, and `None` where it
    /// holds none.
    #[verifier::external_body]
    pub(crate) fn get(&self, id: &AccountId) -> (found: Option<User>)
        ensures
            found.is_some() == user_entries(*self).contains_key(*id),
            found.is_some() ==> found.unwrap()@ == user_entries(*self)[*id],
    {
        self.inner.get(&id.bytes).map(|stored| User {
            list_of_providers: stored.0.iter().map(|bytes| AccountId { bytes: *bytes }).collect(),
            subs_crypt_pass_hash: stored.1,
        })
    }

    /// Calls `ink_storage::collections::HashMap::insert`. Trusted: afterwards
    /// the table holds what it held, with the user under the key in place of
    /// what was there. The map counts its keys in a `u32`, so a new key is
    /// asked to find fewer than `u32::MAX` keys.
    #[verifier::external_body]
    pub(crate) fn insert(&mut self, id: &AccountId, user: &User)
        requires
            user_entries(*old(self)).contains_key(*id) || user_entries(*old(self)).dom().len()
                < u32::MAX,
        ensures
            user_entries(*final(self)) == user_entries(*old(self)).insert(*id, user@),
    {
        let providers = user.list_of_providers.iter().map(|id| id.bytes).collect();
        self.inner.insert(id.bytes, (providers, user.subs_crypt_pass_hash));
    }
}

/// The subscription histories, keyed by user and provider.
#[verifier::external_body]
pub struct RecordTable {
    inner: ink_storage::collections::HashMap<
        ([u8; 32], [u8; 32]),
        (Vec<([u8; 32], (u64, u128, u128, u128, bool), u128, u64, String, bool)>, [u8; 32]),
    >,
}

/// The histories that a record table holds.
pub uninterp spec fn record_entries(table: RecordTable) -> Map<(AccountId, AccountId), PlanRecordView>;

impl RecordTable {
    /// Calls `ink_storage::collections::HashMap::new`. Trusted: the new table
    /// holds nothing.
    #[verifier::external_body]
    pub(crate) fn new() -> (table: RecordTable)
        ensures
            record_entries(table) == (Map::<(AccountId, AccountId), PlanRecordView>::empty()),
    {
        RecordTable { inner: ink_storage::collections::HashMap::new() }
    }

    /// Calls `ink_storage::collections::HashMap::len`. Trusted: the result is
    /// the number of keys that the table holds.
    #[verifier::external_body]
    pub(crate) fn len(&self) -> (size: u32)
        ensures
            size == record_entries(*self).dom().len(),
    {
        self.inner.len()
    }

    /// Calls `ink_storage::collections::HashMap::get`. Trusted: the result is a
    /// copy of the history that the table holds under the key, and `None` where
    /// it holds none.
    #[verifier::external_body]
    pub(crate) fn get(&self, user: &AccountId, provider: &AccountId) -> (found: Option<PlanRecord>)
        ensures
            found.is_some() == record_entries(*self).contains_key((*user, *provider)),
            found.is_some() ==> found.unwrap()@ == record_entries(*self)[(*user, *provider)],
    {
        self.inner.get(&(user.bytes, provider.bytes)).map(|stored| PlanRecord {
            subscription_records: stored.0.iter().map(
                |record| SubscriptionRecord::from_parts(record.clone()),
            ).collect(),
            pass_hash: stored.1,
        })
    }

    /// Calls `ink_storage::collections::HashMap::insert`. Trusted: afterwards
    /// the table holds what it held, with the history under the key in place of
    /// what was there. The map counts its keys in a `u32`, so a new key is
    /// asked to find fewer than `u32::MAX` keys.
    #[verifier::external_body]
    pub(crate) fn insert(&mut self, user: &AccountId, provider: &AccountId, history: &PlanRecord)
        requires
            record_entries(*old(self)).contains_key((*user, *provider)) || record_entries(
                *old(self),
            ).dom().len() < u32::MAX,
        ensures
            record_entries(*final(self)) == record_entries(*old(self)).insert(
                (*user, *provider),
                history@,
            ),
    {
        let records = history.subscription_records.iter().map(|record| record.parts()).collect();
        self.inner.insert((user.bytes, provider.bytes), (records, history.pass_hash));
    }
}

/// For each user, provider and plan, the place of the user's latest
/// subscription to that plan in the history with that provider.
#[verifier::external_body]
pub struct IndexTable {
    inner: ink_storage::collections::HashMap<([u8; 32], [u8; 32], u128), u128>,
}

/// The places that an index table holds.
pub uninterp spec fn index_entries(table: IndexTable) -> Map<(AccountId, AccountId, u128), u128>;

impl IndexTable {
    /// Calls `ink_storage::collections::HashMap::new`. Trusted: the new table
    /// holds nothing.
    #[verifier::external_body]
    pub(crate) fn new() -> (table: IndexTable)
        ensures
            index_entries(table) == (Map::<(AccountId, AccountId, u128), u128>::empty()),
    {
        IndexTable { inner: ink_storage::collections::HashMap::new() }
    }

    /// Calls `ink_storage::collections::HashMap::len`. Trusted: the result is
    /// the number of keys that the table holds.
    #[verifier::external_body]
    pub(crate) fn len(&self) -> (size: u32)
        ensures
            size == index_entries(*self).dom().len(),
    {
        self.inner.len()
    }

    /// Calls `ink_storage::collections::HashMap::get`. Trusted: the result is
    /// the place that the table holds under the key, and `None` where it holds
    /// none.
    #[verifier::external_body]
    pub(crate) fn get(&self, user: &AccountId, provider: &AccountId, plan_index: u128) -> (found:
        Option<u128>)
        ensures
            found == (if index_entries(*self).contains_key((*user, *provider, plan_index)) {
                Some(index_entries(*self)[(*user, *provider, plan_index)])
            } else {
                None
            }),
    {
        self.inner.get(&(user.bytes, provider.bytes, plan_index)).copied()
    }

    /// Calls `ink_storage::collections::HashMap::insert`. Trusted: afterwards
    /// the table holds what it held, with the place under the key in place of
    /// what was there. The map counts its keys in a `u32`, so a new key is
    /// asked to find fewer than `u32::MAX` keys.
    #[verifier::external_body]
    pub(crate) fn insert(
        &mut self,
        user: &AccountId,
        provider: &AccountId,
        plan_index: u128,
        place: u128,
    )
        requires
            index_entries(*old(self)).contains_key((*user, *provider, plan_index)) || index_entries(
                *old(self),
            ).dom().len() < u32::MAX,
        ensures
            index_entries(*final(self)) == index_entries(*old(self)).insert(
                (*user, *provider, plan_index),
                place,
            ),
    {
        self.inner.insert((user.bytes, provider.bytes, plan_index), place);
    }
}

/// The accounts behind the usernames, keyed by username.
#[verifier::external_body]
pub struct NameTable {
    inner: ink_storage::collections::HashMap<String, [u8; 32]>,
}

/// The accounts that a name table holds.
pub uninterp spec fn name_entries(table: NameTable) -> Map<Seq<char>, AccountId>;

impl NameTable {
    /// Calls `ink_storage::collections::HashMap::new`. Trusted: the new table
    /// holds nothing.
    #[verifier::external_body]
    pub(crate) fn new() -> (table: NameTable)
        ensures
            name_entries(table) == (Map::<Seq<char>, AccountId>::empty()),
    {
        NameTable { inner: ink_storage::collections::HashMap::new() }
    }

    /// Calls `ink_storage::collections::HashMap::len`. Trusted: the result is
    /// the number of keys that the table holds.
    #[verifier::external_body]
    pub(crate) fn len(&self) -> (size: u32)
        ensures
            size == name_entries(*self).dom().len(),
    {
        self.inner.len()
    }

    /// Calls `ink_storage::collections::HashMap::get`. Trusted: the result is
    /// the account that the table holds under the username, and `None` where
    /// it holds none.
    #[verifier::external_body]
    pub(crate) fn get(&self, username: &String) -> (found: Option<AccountId>)
        ensures
            found == (if name_entries(*self).contains_key(username@) {
                Some(name_entries(*self)[username@])
            } else {
                None
            }),
    {
        self.inner.get(username).map(|bytes| AccountId { bytes: *bytes })
    }

    /// Calls `ink_storage::collections::HashMap::insert`. Trusted: afterwards
    /// the table holds what it held, with the account under the username in
    /// place of what was there. The map counts its keys in a `u32`, so a new
    /// key is asked to find fewer than `u32::MAX` keys.
    #[verifier::external_body]
    pub(crate) fn insert(&mut self, username: &String, account: &AccountId)
        requires
            name_entries(*old(self)).contains_key(username@) || name_entries(
                *old(self),
            ).dom().len() < u32::MAX,
        ensures
            name_entries(*final(self)) == name_entries(*old(self)).insert(username@, *account),
    {
        self.inner.insert(username.clone(), account.bytes);
    }
}

/// The usernames of the accounts, keyed by account.
#[verifier::external_body]
pub struct HandleTable {
    inner: ink_storage::collections::HashMap<[u8; 32], String>,
}

/// The usernames that a handle table holds.
pub uninterp spec fn handle_entries(table: HandleTable) -> Map<AccountId, Seq<char>>;

impl HandleTable {
    /// Calls `ink_storage::collections::HashMap::new`. Trusted: the new table
    /// holds nothing.
    #[verifier::external_body]
    pub(crate) fn new() -> (table: HandleTable)
        ensures
            handle_entries(table) == (Map::<AccountId, Seq<char>>::empty()),
    {
        HandleTable { inner: ink_storage::collections::HashMap::new() }
    }

    /// Calls `ink_storage::collections::HashMap::len`. Trusted: the result is
    /// the number of keys that the table holds.
    #[verifier::external_body]
    pub(crate) fn len(&self) -> (size: u32)
        ensures
            size == handle_entries(*self).dom().len(),
    {
        self.inner.len()
    }

    /// Calls `ink_storage::collections::HashMap::get`. Trusted: the result is a
    /// copy of the username that the table holds under the account, and `None`
    /// where it holds none.
    #[verifier::external_body]
    pub(crate) fn get(&self, account: &AccountId) -> (found: Option<String>)
        ensures
            found.is_some() == handle_entries(*self).contains_key(*account),
            found.is_some() ==> found.unwrap()@ == handle_entries(*self)[*account],
    {
        self.inner.get(&account.bytes).cloned()
    }

    /// Calls `ink_storage::collections::HashMap::insert`. Trusted: afterwards
    /// the table holds what it held, with the username under the account in
    /// place of what was there. The map counts its keys in a `u32`, so a new
    /// key is asked to find fewer than `u32::MAX` keys.
    #[verifier::external_body]
    pub(crate) fn insert(&mut self, account: &AccountId, username: &String)
        requires
            handle_entries(*old(self)).contains_key(*account) || handle_entries(
                *old(self),
            ).dom().len() < u32::MAX,
        ensures
            handle_entries(*final(self)) == handle_entries(*old(self)).insert(*account, username@),
    {
        self.inner.insert(account.bytes, username.clone());
    }
}

} // verus!
