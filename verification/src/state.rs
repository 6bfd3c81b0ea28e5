//! The contract's state and what it means for it to be well formed.

use vstd::prelude::*;
use crate::account::AccountId;
use crate::ledger::{locked_sum, Bucket};
use crate::plan::PlanConsts;
use crate::record::{
    DailyLockedAmount, LinkedList, PlanRecordView, ProviderView, SubscriptionRecord, UserView,
};
use crate::store::{
    bucket_entries, handle_entries, index_entries, name_entries, provider_entries, record_entries,
    user_entries, BucketTable, HandleTable, IndexTable, NameTable, ProviderTable, RecordTable,
    UserTable,
};

verus! {

/// The fee that a provider pays to register.
pub const PROVIDER_REGISTER_FEE: u128 = 100;

/// The state of the contract: when it started, what a registration costs, and
/// the storage tables of providers, users, escrow buckets, histories, places of
/// the latest subscriptions, and usernames.
///
/// `chains` is a ghost: for each provider, the days of its escrow chain from
/// head to back. The buckets of storage link these days by `next_day`.
pub struct Subscrypt {
    pub start_time: u64,
    pub provider_register_fee: u128,
    pub providers: ProviderTable,
    pub users: UserTable,
    pub daily_locked_amounts: BucketTable,
    pub records: RecordTable,
    pub plan_index_to_record_index: IndexTable,
    pub addresses: NameTable,
    pub usernames: HandleTable,
    pub chains: Ghost<Map<AccountId, Seq<u64>>>,
}

/// The schedule that the buckets of `provider` make along `days`.
pub open spec fn schedule_of(
    buckets: Map<(AccountId, u64), DailyLockedAmount>,
    provider: AccountId,
    days: Seq<u64>,
) -> Seq<Bucket> {
    Seq::new(
        days.len(),
        |i: int| Bucket { day: days[i], amount: buckets[(provider, days[i])].amount as nat },
    )
}

/// The buckets of `provider` form the chain that `list` describes, through
/// `days`: the days ascend from head to back, each bucket names the next day,
/// the last one names itself, and `list` counts the buckets and their sum.
#[verifier::opaque]
pub open spec fn chain_ok(
    buckets: Map<(AccountId, u64), DailyLockedAmount>,
    provider: AccountId,
    list: LinkedList,
    days: Seq<u64>,
) -> bool {
    &&& days.len() == list.length
    &&& forall|i: int, j: int| 0 <= i < j < days.len() ==> days[i] < days[j]
    &&& forall|i: int| 0 <= i < days.len() ==> buckets.contains_key((provider, #[trigger] days[i]))
    &&& forall|i: int|
        0 <= i < days.len() - 1 ==> buckets[(provider, #[trigger] days[i])].next_day == days[i + 1]
    &&& days.len() > 0 ==> {
        &&& list.head == days[0]
        &&& list.back == days[days.len() - 1]
        &&& buckets[(provider, days[days.len() - 1])].next_day == days[days.len() - 1]
    }
    &&& list.locked == locked_sum(schedule_of(buckets, provider, days))
}

impl Subscrypt {
    /// The providers by account.
    pub open spec fn provider_map(self) -> Map<AccountId, ProviderView> {
        provider_entries(self.providers)
    }

    /// The users by account.
    pub open spec fn user_map(self) -> Map<AccountId, UserView> {
        user_entries(self.users)
    }

    /// The histories by user and provider.
    pub open spec fn record_map(self) -> Map<(AccountId, AccountId), PlanRecordView> {
        record_entries(self.records)
    }

    /// The place of the latest subscription by user, provider and plan.
    pub open spec fn index_map(self) -> Map<(AccountId, AccountId, u128), u128> {
        index_entries(self.plan_index_to_record_index)
    }

    /// The accounts by username.
    pub open spec fn name_map(self) -> Map<Seq<char>, AccountId> {
        name_entries(self.addresses)
    }

    /// The usernames by account.
    pub open spec fn handle_map(self) -> Map<AccountId, Seq<char>> {
        handle_entries(self.usernames)
    }

    /// The escrow buckets by provider and day.
    pub open spec fn bucket_map(self) -> Map<(AccountId, u64), DailyLockedAmount> {
        bucket_entries(self.daily_locked_amounts)
    }

    /// The days of the escrow chain of `provider`.
    pub open spec fn days(self, provider: AccountId) -> Seq<u64> {
        self.chains@[provider]
    }

    /// The escrow schedule of `provider`: its unreleased buckets by day.
    pub open spec fn schedule(self, provider: AccountId) -> Seq<Bucket> {
        schedule_of(self.bucket_map(), provider, self.days(provider))
    }

    /// The history of `user` with `provider`, empty where there is none.
    pub open spec fn history(self, user: AccountId, provider: AccountId) -> Seq<SubscriptionRecord> {
        if self.record_map().contains_key((user, provider)) {
            self.record_map()[(user, provider)].subscription_records
        } else {
            Seq::empty()
        }
    }

    /// The providers that `user` subscribed to, in the order of the first
    /// subscription; none where the user is unknown.
    pub open spec fn providers_of(self, user: AccountId) -> Seq<AccountId> {
        if self.user_map().contains_key(user) {
            self.user_map()[user].list_of_providers
        } else {
            Seq::empty()
        }
    }

    /// The plans of `provider`, none where it is not registered.
    pub open spec fn plans(self, provider: AccountId) -> Seq<PlanConsts> {
        if self.provider_map().contains_key(provider) {
            self.provider_map()[provider].plans
        } else {
            Seq::empty()
        }
    }

    /// Every table holds finitely many entries.
    pub open spec fn finite(self) -> bool {
        &&& self.provider_map().dom().finite()
        &&& self.user_map().dom().finite()
        &&& self.record_map().dom().finite()
        &&& self.index_map().dom().finite()
        &&& self.bucket_map().dom().finite()
        &&& self.name_map().dom().finite()
        &&& self.handle_map().dom().finite()
    }

    /// The escrow of every provider is a chain, and storage holds no bucket
    /// outside the chains.
    pub open spec fn escrow_wf(self) -> bool {
        &&& forall|p: AccountId| #[trigger]
            self.provider_map().contains_key(p) ==> chain_ok(
                self.bucket_map(),
                p,
                self.provider_map()[p].payment_manager,
                self.days(p),
            )
        &&& forall|p: AccountId, d: u64| #[trigger]
            self.bucket_map().contains_key((p, d)) ==> self.provider_map().contains_key(p)
                && self.days(p).contains(d)
    }

    /// Every plan on offer and every plan that a subscription recorded has a
    /// refund policy of at most 1000 permille.
    pub open spec fn plans_wf(self) -> bool {
        &&& forall|p: AccountId, i: int|
            self.provider_map().contains_key(p) && 0 <= i < self.provider_map()[p].plans.len()
                ==> (#[trigger] self.provider_map()[p].plans[i]).valid()
        &&& forall|u: AccountId, p: AccountId, i: int|
            self.record_map().contains_key((u, p)) && 0 <= i < self.record_map()[(
                u,
                p,
            )].subscription_records.len() ==> (#[trigger] self.record_map()[(
                u,
                p,
            )].subscription_records[i]).plan.valid()
    }

    /// The books agree: a user lists a provider, once, exactly where the two
    /// have a history; every record of a history names the provider of the
    /// history; and the index names, for a user, a provider and a plan, the
    /// place of the latest record of that plan in their history, exactly where
    /// there is such a record.
    pub open spec fn books_wf(self) -> bool {
        &&& forall|u: AccountId, p: AccountId| #[trigger]
            self.record_map().contains_key((u, p)) ==> self.user_map().contains_key(u)
                && self.user_map()[u].list_of_providers.contains(p)
        &&& forall|u: AccountId, i: int|
            self.user_map().contains_key(u) && 0 <= i < self.user_map()[u].list_of_providers.len()
                ==> self.record_map().contains_key(
                (u, #[trigger] self.user_map()[u].list_of_providers[i]),
            )
        &&& forall|u: AccountId| #[trigger]
            self.user_map().contains_key(u) ==> self.user_map()[u].list_of_providers.no_duplicates()
        &&& forall|u: AccountId, p: AccountId, j: int|
            self.record_map().contains_key((u, p)) && 0 <= j < self.record_map()[(
                u,
                p,
            )].subscription_records.len() ==> (#[trigger] self.record_map()[(
                u,
                p,
            )].subscription_records[j]).provider == p && self.index_map().contains_key(
                (u, p, self.record_map()[(u, p)].subscription_records[j].plan_index),
            )
        &&& forall|u: AccountId, p: AccountId, i: u128| #[trigger]
            self.index_map().contains_key((u, p, i)) ==> self.latest_of(u, p, i)
    }

    /// The index entry of `user`, `provider` and plan `plan_index` names the
    /// place of the latest record of that plan in the history of the two.
    pub open spec fn latest_of(self, user: AccountId, provider: AccountId, plan_index: u128) -> bool {
        let place = self.index_map()[(user, provider, plan_index)] as int;
        let records = self.history(user, provider);
        &&& self.record_map().contains_key((user, provider))
        &&& place < records.len()
        &&& records[place].plan_index == plan_index
        &&& forall|j: int| place < j < records.len() ==> (#[trigger] records[j]).plan_index != plan_index
    }

    /// Usernames and accounts stand one to one: an account has the username
    /// under which it is found, and a username finds the account that has it.
    pub open spec fn names_wf(self) -> bool {
        &&& forall|n: Seq<char>| #[trigger]
            self.name_map().contains_key(n) ==> self.handle_map().contains_key(self.name_map()[n])
                && self.handle_map()[self.name_map()[n]] == n
        &&& forall|a: AccountId| #[trigger]
            self.handle_map().contains_key(a) ==> self.name_map().contains_key(
                self.handle_map()[a],
            ) && self.name_map()[self.handle_map()[a]] == a
    }

    /// The usernames of `self` are those of `before`.
    pub open spec fn same_names(self, before: Subscrypt) -> bool {
        &&& self.addresses == before.addresses
        &&& self.usernames == before.usernames
    }

    /// The state is well formed.
    pub open spec fn wf(self) -> bool {
        &&& self.finite()
        &&& self.escrow_wf()
        &&& self.plans_wf()
        &&& self.books_wf()
        &&& self.names_wf()
    }

    /// A contract that starts at `start_time`, with no provider and no user.
    pub fn new(start_time: u64) -> (contract: Subscrypt)
        ensures
            contract.wf(),
            contract.start_time == start_time,
            contract.provider_register_fee == PROVIDER_REGISTER_FEE,
            contract.provider_map() == Map::<AccountId, ProviderView>::empty(),
            contract.user_map() == Map::<AccountId, UserView>::empty(),
            contract.record_map() == Map::<(AccountId, AccountId), PlanRecordView>::empty(),
            contract.index_map() == Map::<(AccountId, AccountId, u128), u128>::empty(),
            contract.bucket_map() == Map::<(AccountId, u64), DailyLockedAmount>::empty(),
            contract.name_map() == Map::<Seq<char>, AccountId>::empty(),
            contract.handle_map() == Map::<AccountId, Seq<char>>::empty(),
    {
        Subscrypt::default(start_time)
    }

    /// A contract that starts at `start_time`, with no provider and no user.
    pub fn default(start_time: u64) -> (contract: Subscrypt)
        ensures
            contract.wf(),
            contract.start_time == start_time,
            contract.provider_register_fee == PROVIDER_REGISTER_FEE,
            contract.provider_map() == Map::<AccountId, ProviderView>::empty(),
            contract.user_map() == Map::<AccountId, UserView>::empty(),
            contract.record_map() == Map::<(AccountId, AccountId), PlanRecordView>::empty(),
            contract.index_map() == Map::<(AccountId, AccountId, u128), u128>::empty(),
            contract.bucket_map() == Map::<(AccountId, u64), DailyLockedAmount>::empty(),
            contract.name_map() == Map::<Seq<char>, AccountId>::empty(),
            contract.handle_map() == Map::<AccountId, Seq<char>>::empty(),
    {
        Subscrypt {
            start_time,
            provider_register_fee: PROVIDER_REGISTER_FEE,
            providers: ProviderTable::new(),
            users: UserTable::new(),
            daily_locked_amounts: BucketTable::new(),
            records: RecordTable::new(),
            plan_index_to_record_index: IndexTable::new(),
            addresses: NameTable::new(),
            usernames: HandleTable::new(),
            chains: Ghost(Map::empty()),
        }
    }
}

/// A chain stays a chain, with the same schedule, when the buckets of its
/// provider stay as they are.
pub proof fn lemma_chain_frame(
    before: Map<(AccountId, u64), DailyLockedAmount>,
    after: Map<(AccountId, u64), DailyLockedAmount>,
    provider: AccountId,
    list: LinkedList,
    days: Seq<u64>,
)
    requires
        chain_ok(before, provider, list, days),
        forall|d: u64| #[trigger]
            before.contains_key((provider, d)) ==> after.contains_key((provider, d)) && after[(
                provider,
                d,
            )] == before[(provider, d)],
    ensures
        chain_ok(after, provider, list, days),
        schedule_of(after, provider, days) == schedule_of(before, provider, days),
{
    reveal(chain_ok);
    assert forall|i: int| 0 <= i < days.len() implies after.contains_key(
        (provider, #[trigger] days[i]),
    ) && after[(provider, days[i])] == before[(provider, days[i])] by {
        assert(before.contains_key((provider, days[i])));
    }
    assert(schedule_of(after, provider, days) =~= schedule_of(before, provider, days));
}

} // verus!
