//! The subscription service: subscribing, refunding, withdrawing, and telling
//! whether a subscription is live.

use vstd::prelude::*;
use crate::account::AccountId;
use crate::error::Error;
use crate::ledger::{
    lemma_deposit_keeps_others, lemma_deposit_then_withdrawal, lemma_second_release_is_empty,
    matured_sum, unreleased, with_deposit, with_withdrawal,
};
use crate::plan::{
    day_of, escrowed_amount, immediate_payment, lemma_payment_conserved, permille_share,
    provider_refund, user_refund, PlanConsts, SECONDS_PER_DAY,
};
use crate::record::{PlanRecord, PlanRecordView, SubscriptionRecord, User, UserView};
use crate::state::Subscrypt;

verus! {

/// A payment that the contract owes after a call.
#[derive(Clone, Copy, Debug, PartialEq, Eq)]
pub struct Transfer {
    pub to: AccountId,
    pub amount: u128,
}

/// What a refund pays: `user_amount` to the user who refunds, and
/// `provider_amount` to `money_address`, the provider's destination.
#[derive(Clone, Copy, Debug, PartialEq, Eq)]
pub struct RefundPayout {
    pub user_amount: u128,
    pub provider_amount: u128,
    pub money_address: AccountId,
}

/// What a renewal pays to `money_address`, the provider's destination:
/// `immediate`, the part of the new payment that is not escrowed, and
/// `released`, the escrow of the period that ends.
#[derive(Clone, Copy, Debug, PartialEq, Eq)]
pub struct RenewPayout {
    pub immediate: u128,
    pub released: u128,
    pub money_address: AccountId,
}

/// Every record of the sequence holds a valid plan.
pub open spec fn records_valid(records: Seq<SubscriptionRecord>) -> bool {
    forall|i: int| 0 <= i < records.len() ==> (#[trigger] records[i]).plan.valid()
}

/// A change to users, histories and places that leaves the books in agreement
/// and every recorded plan valid leaves the state well formed, and the escrow
/// as it was.
pub proof fn lemma_books_commit(
    before: Subscrypt,
    after: Subscrypt,
    user: AccountId,
    provider: AccountId,
    history: PlanRecordView,
)
    requires
        before.wf(),
        after.providers == before.providers,
        after.daily_locked_amounts == before.daily_locked_amounts,
        after.chains == before.chains,
        after.same_names(before),
        after.finite(),
        after.books_wf(),
        records_valid(history.subscription_records),
        after.record_map() == before.record_map().insert((user, provider), history),
    ensures
        after.wf(),
        forall|q: AccountId| #[trigger] after.schedule(q) == before.schedule(q),
{
    assert forall|u: AccountId, p: AccountId, i: int|
        after.record_map().contains_key((u, p)) && 0 <= i < after.record_map()[(
            u,
            p,
        )].subscription_records.len() implies (#[trigger] after.record_map()[(
        u,
        p,
    )].subscription_records[i]).plan.valid() by {
        if (u, p) != (user, provider) {
            assert(before.record_map().contains_key((u, p)));
            assert(before.record_map()[(u, p)].subscription_records[i].plan.valid());
        }
    }
}

/// The books stay in agreement when a record joins the history of a user with
/// a provider, the index of the record's plan names its place, and the user
/// lists the provider where the history is new.
pub proof fn lemma_books_after_append(
    before: Subscrypt,
    after: Subscrypt,
    user: AccountId,
    provider: AccountId,
    record: SubscriptionRecord,
)
    requires
        before.books_wf(),
        record.provider == provider,
        after.user_map().dom() == before.user_map().dom().insert(user),
        forall|u: AccountId| u != user ==> #[trigger] after.user_map()[u] == before.user_map()[u],
        after.user_map()[user].list_of_providers == (if before.record_map().contains_key(
            (user, provider),
        ) {
            before.providers_of(user)
        } else {
            before.providers_of(user).push(provider)
        }),
        after.record_map().dom() == before.record_map().dom().insert((user, provider)),
        forall|u: AccountId, p: AccountId|
            (u, p) != (user, provider) ==> #[trigger] after.record_map()[(u, p)]
                == before.record_map()[(u, p)],
        after.record_map()[(user, provider)].subscription_records == before.history(
            user,
            provider,
        ).push(record),
        after.index_map() == before.index_map().insert(
            (user, provider, record.plan_index),
            before.history(user, provider).len() as u128,
        ),
        before.history(user, provider).len() <= usize::MAX,
    ensures
        after.books_wf(),
{
    let related = before.record_map().contains_key((user, provider));
    let old_list = before.providers_of(user);
    let new_list = after.user_map()[user].list_of_providers;
    let old_records = before.history(user, provider);
    let new_records = after.record_map()[(user, provider)].subscription_records;
    let place = old_records.len() as int;
    assert(after.history(user, provider) == new_records);
    if related {
        assert(before.user_map().contains_key(user));
        assert(old_list.contains(provider));
    } else {
        assert(new_list[old_list.len() as int] == provider);
        if old_list.contains(provider) {
            let k = choose|k: int| 0 <= k < old_list.len() && old_list[k] == provider;
            assert(before.record_map().contains_key((user, old_list[k])));
        }
        if before.user_map().contains_key(user) {
            assert(old_list.no_duplicates());
        }
        assert(new_list.no_duplicates()) by {
            assert forall|i: int, j: int|
                0 <= i < new_list.len() && 0 <= j < new_list.len() && i != j implies new_list[i]
                != new_list[j] by {
                if i < old_list.len() && j < old_list.len() {
                    assert(old_list[i] != old_list[j]);
                } else if i < old_list.len() {
                    assert(old_list.contains(old_list[i]));
                } else {
                    assert(old_list.contains(old_list[j]));
                }
            }
        }
    }
    assert forall|u: AccountId, p: AccountId| #[trigger]
        after.record_map().contains_key((u, p)) implies after.user_map().contains_key(u)
        && after.user_map()[u].list_of_providers.contains(p) by {
        if (u, p) == (user, provider) {
            if related {
                let k = choose|k: int| 0 <= k < old_list.len() && old_list[k] == provider;
                assert(new_list[k] == provider);
            }
        } else {
            assert(before.record_map().contains_key((u, p)));
            assert(before.user_map()[u].list_of_providers.contains(p));
            if u == user {
                let k = choose|k: int| 0 <= k < old_list.len() && old_list[k] == p;
                assert(new_list[k] == p);
            }
        }
    }
    assert forall|u: AccountId, i: int|
        after.user_map().contains_key(u) && 0 <= i < after.user_map()[u].list_of_providers.len()
        implies after.record_map().contains_key(
        (u, #[trigger] after.user_map()[u].list_of_providers[i]),
    ) by {
        if u == user {
            if i < old_list.len() {
                assert(new_list[i] == old_list[i]);
                assert(before.user_map().contains_key(user));
                assert(before.record_map().contains_key((user, old_list[i])));
            }
        } else {
            assert(before.user_map().contains_key(u));
            assert(before.record_map().contains_key(
                (u, before.user_map()[u].list_of_providers[i]),
            ));
        }
    }
    assert forall|u: AccountId| #[trigger] after.user_map().contains_key(u) implies after.user_map()[u].list_of_providers.no_duplicates() by {
        if u != user {
            assert(before.user_map().contains_key(u));
        }
    }
    assert forall|u: AccountId, p: AccountId, j: int|
        after.record_map().contains_key((u, p)) && 0 <= j < after.record_map()[(
            u,
            p,
        )].subscription_records.len() implies (#[trigger] after.record_map()[(
        u,
        p,
    )].subscription_records[j]).provider == p && after.index_map().contains_key(
        (u, p, after.record_map()[(u, p)].subscription_records[j].plan_index),
    ) by {
        if (u, p) == (user, provider) {
            if j < place {
                assert(new_records[j] == old_records[j]);
                assert(before.record_map().contains_key((u, p)));
                assert(before.record_map()[(u, p)].subscription_records[j].provider == p);
            }
        } else {
            assert(before.record_map().contains_key((u, p)));
            assert(before.record_map()[(u, p)].subscription_records[j].provider == p);
        }
    }
    assert forall|u: AccountId, p: AccountId, i: u128| #[trigger]
        after.index_map().contains_key((u, p, i)) implies after.latest_of(u, p, i) by {
        if (u, p, i) == (user, provider, record.plan_index) {
            assert(new_records[place] == record);
        } else {
            assert(before.index_map().contains_key((u, p, i)));
            assert(before.latest_of(u, p, i));
            if (u, p) == (user, provider) {
                let at = before.index_map()[(u, p, i)] as int;
                assert(new_records[at] == old_records[at]);
                assert forall|j: int| at < j < new_records.len() implies (
                #[trigger] new_records[j]).plan_index != i by {
                    if j < place {
                        assert(new_records[j] == old_records[j]);
                    }
                }
            } else {
                assert(after.history(u, p) == before.history(u, p));
            }
        }
    }
}

/// The books stay in agreement when a record of a history is marked as
/// refunded.
pub proof fn lemma_books_after_flag(
    before: Subscrypt,
    after: Subscrypt,
    user: AccountId,
    provider: AccountId,
    place: int,
)
    requires
        before.books_wf(),
        after.users == before.users,
        after.plan_index_to_record_index == before.plan_index_to_record_index,
        before.record_map().contains_key((user, provider)),
        0 <= place < before.history(user, provider).len(),
        after.record_map() == before.record_map().insert(
            (user, provider),
            PlanRecordView {
                subscription_records: before.history(user, provider).update(
                    place,
                    SubscriptionRecord { refunded: true, ..before.history(user, provider)[place] },
                ),
                ..before.record_map()[(user, provider)]
            },
        ),
    ensures
        after.books_wf(),
{
    let old_records = before.history(user, provider);
    let new_records = after.history(user, provider);
    assert(after.record_map().dom() =~= before.record_map().dom());
    assert forall|j: int| 0 <= j < new_records.len() implies (#[trigger] new_records[j]).provider
        == old_records[j].provider && new_records[j].plan_index == old_records[j].plan_index by {}
    assert forall|u: AccountId, p: AccountId| #[trigger]
        after.record_map().contains_key((u, p)) implies after.user_map().contains_key(u)
        && after.user_map()[u].list_of_providers.contains(p) by {
        assert(before.record_map().contains_key((u, p)));
    }
    assert forall|u: AccountId, p: AccountId, j: int|
        after.record_map().contains_key((u, p)) && 0 <= j < after.record_map()[(
            u,
            p,
        )].subscription_records.len() implies (#[trigger] after.record_map()[(
        u,
        p,
    )].subscription_records[j]).provider == p && after.index_map().contains_key(
        (u, p, after.record_map()[(u, p)].subscription_records[j].plan_index),
    ) by {
        assert(before.record_map().contains_key((u, p)));
        assert(before.record_map()[(u, p)].subscription_records[j].provider == p);
        if (u, p) == (user, provider) {
            assert(new_records[j].provider == old_records[j].provider);
        }
    }
    assert forall|u: AccountId, p: AccountId, i: u128| #[trigger]
        after.index_map().contains_key((u, p, i)) implies after.latest_of(u, p, i) by {
        assert(before.latest_of(u, p, i));
        if (u, p) == (user, provider) {
            let at = before.index_map()[(u, p, i)] as int;
            assert(new_records[at].plan_index == old_records[at].plan_index);
            assert forall|j: int| at < j < new_records.len() implies (
            #[trigger] new_records[j]).plan_index != i by {
                assert(new_records[j].plan_index == old_records[j].plan_index);
            }
        } else {
            assert(after.history(u, p) == before.history(u, p));
        }
    }
}

impl Subscrypt {
    /// The record of the latest subscription of `user` to plan `plan_index` of
    /// `provider`, if the index names one.
    pub open spec fn latest_record(
        self,
        user: AccountId,
        provider: AccountId,
        plan_index: u128,
    ) -> Option<SubscriptionRecord> {
        if self.index_map().contains_key((user, provider, plan_index)) && self.index_map()[(
            user,
            provider,
            plan_index,
        )] < self.history(user, provider).len() {
            Some(
                self.history(user, provider)[self.index_map()[(user, provider, plan_index)] as int],
            )
        } else {
            None
        }
    }

    /// Whether `user` holds a live subscription to plan `plan_index` of
    /// `provider` at `now`: the index names a record, the record is of that
    /// plan, it was not refunded, and `now` lies before its end.
    pub open spec fn subscribed(
        self,
        user: AccountId,
        provider: AccountId,
        plan_index: u128,
        now: u64,
    ) -> bool {
        match self.latest_record(user, provider, plan_index) {
            Some(record) => record.active_at(plan_index, now),
            None => false,
        }
    }

    /// Looks up the record of the latest subscription of `user` to plan
    /// `plan_index` of `provider`, with its place and the history it is in.
    fn find_latest(&self, user: &AccountId, provider: &AccountId, plan_index: u128) -> (found:
        Option<(PlanRecord, usize)>)
        ensures
            match found {
                Some((history, place)) => {
                    &&& self.record_map().contains_key((*user, *provider))
                    &&& history@ == self.record_map()[(*user, *provider)]
                    &&& self.index_map().contains_key((*user, *provider, plan_index))
                    &&& place == self.index_map()[(*user, *provider, plan_index)]
                    &&& place < history.subscription_records.len()
                    &&& self.latest_record(*user, *provider, plan_index) == Some(
                        history.subscription_records[place as int],
                    )
                },
                None => self.latest_record(*user, *provider, plan_index) is None,
            },
    {
        let place = match self.plan_index_to_record_index.get(user, provider, plan_index) {
            Some(place) => place,
            None => {
                return None;
            },
        };
        let history = match self.records.get(user, provider) {
            Some(history) => history,
            None => {
                return None;
            },
        };
        if place >= history.subscription_records.len() as u128 {
            return None;
        }
        Some((history, place as usize))
    }

    /// Whether `user` holds a live subscription to plan `plan_index` of
    /// `provider_address` at `now`.
    pub fn check_subscription(
        &self,
        user: &AccountId,
        provider_address: &AccountId,
        plan_index: u128,
        now: u64,
    ) -> (live: bool)
        ensures
            live == self.subscribed(*user, *provider_address, plan_index, now),
    {
        match self.find_latest(user, provider_address, plan_index) {
            Some((history, place)) => history.subscription_records[place].is_active_at(
                plan_index,
                now,
            ),
            None => false,
        }
    }

    /// A subscription of `user` to plan `plan_index` of `provider` needs a new
    /// key in the table of users, of histories or of places, and that table is
    /// full.
    pub open spec fn books_full(self, user: AccountId, provider: AccountId, plan_index: u128) -> bool {
        ||| !self.user_map().contains_key(user) && self.user_map().dom().len() >= u32::MAX
        ||| !self.record_map().contains_key((user, provider)) && self.record_map().dom().len()
            >= u32::MAX
        ||| !self.index_map().contains_key((user, provider, plan_index))
            && self.index_map().dom().len() >= u32::MAX
    }

    /// The day on whose bucket the escrow of a subscription is locked: the day,
    /// counted from the contract's start, on which a plan of `duration` that
    /// starts at `start` ends.
    pub open spec fn release_day(self, start: u64, duration: u64) -> int {
        day_of(start + duration, self.start_time as int)
    }

    /// Why a subscription is rejected, if it is. The reasons are tried in this
    /// order: a live subscription to the plan, an unknown provider, an index
    /// that names no plan, a payment that is not the price, a disabled plan, a
    /// plan that ends before the contract started, full tables, and what
    /// speaks against locking the escrow.
    pub open spec fn subscribe_error(
        self,
        caller: AccountId,
        now: u64,
        paid: u128,
        provider: AccountId,
        plan_index: u128,
    ) -> Option<Error> {
        if self.subscribed(caller, provider, plan_index, now) {
            Some(Error::AlreadySubscribed)
        } else if !self.provider_map().contains_key(provider) {
            Some(Error::ProviderNotFound)
        } else if plan_index >= self.plans(provider).len() {
            Some(Error::InvalidPlanIndex)
        } else {
            let plan = self.plans(provider)[plan_index as int];
            if plan.price != paid {
                Some(Error::WrongPayment)
            } else if plan.disabled {
                Some(Error::PlanDisabled)
            } else if now + plan.duration < self.start_time {
                Some(Error::ClockBeforeStart)
            } else if self.books_full(caller, provider, plan_index) {
                Some(Error::StorageFull)
            } else {
                self.add_entry_error(
                    provider,
                    self.release_day(now, plan.duration) as u64,
                    escrowed_amount(paid as int, plan.max_refund_percent_policy as int) as u128,
                )
            }
        }
    }

    /// Decides on a subscription: the reason against it, or what the provider
    /// is owed at once, the plan's terms, the day of the escrow and its amount.
    fn subscribe_terms(
        &self,
        caller: &AccountId,
        now: u64,
        paid: u128,
        provider_address: &AccountId,
        plan_index: u128,
    ) -> (terms: Result<(Transfer, PlanConsts, u64, u128), Error>)
        requires
            self.wf(),
        ensures
            match terms {
                Ok((transfer, plan, day_id, escrow)) => {
                    &&& self.subscribe_error(*caller, now, paid, *provider_address, plan_index)
                        is None
                    &&& plan == self.plans(*provider_address)[plan_index as int]
                    &&& plan.valid()
                    &&& transfer.to == self.provider_map()[*provider_address].money_address
                    &&& transfer.amount == immediate_payment(
                        plan.price as int,
                        plan.max_refund_percent_policy as int,
                    )
                    &&& day_id == self.release_day(now, plan.duration)
                    &&& escrow == escrowed_amount(
                        paid as int,
                        plan.max_refund_percent_policy as int,
                    )
                },
                Err(e) => self.subscribe_error(*caller, now, paid, *provider_address, plan_index)
                    == Some(e),
            },
    {
        if self.check_subscription(caller, provider_address, plan_index, now) {
            return Err(Error::AlreadySubscribed);
        }
        let provider = match self.providers.get(provider_address) {
            Some(provider) => provider,
            None => {
                return Err(Error::ProviderNotFound);
            },
        };
        if plan_index >= provider.plans.len() as u128 {
            return Err(Error::InvalidPlanIndex);
        }
        let consts = provider.plans[plan_index as usize];
        assert(consts == self.plans(*provider_address)[plan_index as int]);
        assert(consts.valid());
        if consts.price != paid {
            return Err(Error::WrongPayment);
        }
        if consts.disabled {
            return Err(Error::PlanDisabled);
        }
        let end: u128 = now as u128 + consts.duration as u128;
        if end < self.start_time as u128 {
            return Err(Error::ClockBeforeStart);
        }
        assert((end - self.start_time) / 86400 <= u64::MAX) by {
            assert(end - self.start_time <= 2 * u64::MAX);
        }
        let day_id: u64 = ((end - self.start_time as u128) / (SECONDS_PER_DAY as u128)) as u64;
        if self.users.get(caller).is_none() && self.users.len() == u32::MAX {
            return Err(Error::StorageFull);
        }
        if self.records.get(caller, provider_address).is_none() && self.records.len() == u32::MAX {
            return Err(Error::StorageFull);
        }
        if self.plan_index_to_record_index.get(caller, provider_address, plan_index).is_none()
            && self.plan_index_to_record_index.len() == u32::MAX {
            return Err(Error::StorageFull);
        }
        let immediate = permille_share(consts.price, 1000 - consts.max_refund_percent_policy);
        let escrow = permille_share(paid, consts.max_refund_percent_policy);
        if let Some(e) = self.add_entry_refusal(provider_address, day_id, escrow) {
            return Err(e);
        }
        let owed = Transfer { to: provider.money_address, amount: immediate };
        Ok((owed, consts, day_id, escrow))
    }

    /// What the provider is owed at once if `caller`, who paid `paid`,
    /// subscribes at time `now` to plan `plan_index` of `provider_address`, or
    /// why the subscription would be rejected. The state stays as it is: a
    /// caller that cannot undo a call pays first and subscribes then.
    pub fn subscribe_payment(
        &self,
        caller: &AccountId,
        now: u64,
        paid: u128,
        provider_address: &AccountId,
        plan_index: u128,
    ) -> (owed: Result<Transfer, Error>)
        requires
            self.wf(),
        ensures
            match owed {
                Ok(transfer) => {
                    let plan = self.plans(*provider_address)[plan_index as int];
                    &&& self.subscribe_error(*caller, now, paid, *provider_address, plan_index)
                        is None
                    &&& transfer.to == self.provider_map()[*provider_address].money_address
                    &&& transfer.amount == immediate_payment(
                        plan.price as int,
                        plan.max_refund_percent_policy as int,
                    )
                },
                Err(e) => self.subscribe_error(*caller, now, paid, *provider_address, plan_index)
                    == Some(e),
            },
    {
        match self.subscribe_terms(caller, now, paid, provider_address, plan_index) {
            Ok((transfer, _, _, _)) => Ok(transfer),
            Err(e) => Err(e),
        }
    }

    /// Subscribes `caller`, who paid `paid`, at time `now` to plan `plan_index`
    /// of `provider_address`.
    ///
    /// The plan's terms are copied into a new record at the end of the history
    /// of `caller` with the provider, and the index of the latest subscription
    /// names it. `pass` guards the user and the history where they are new. The
    /// escrowed part of the payment is locked for the day on which the plan
    /// ends. The result is the payment that the provider is owed at once.
    pub fn subscribe(
        &mut self,
        caller: &AccountId,
        now: u64,
        paid: u128,
        provider_address: &AccountId,
        plan_index: u128,
        pass: [u8; 32],
        metadata: String,
    ) -> (done: Result<Transfer, Error>)
        requires
            old(self).wf(),
        ensures
            final(self).wf(),
            match done {
                Ok(transfer) => {
                    let plan = old(self).plans(*provider_address)[plan_index as int];
                    let cap = plan.max_refund_percent_policy as int;
                    let record = SubscriptionRecord {
                        provider: *provider_address,
                        plan,
                        plan_index,
                        subscription_time: now,
                        meta_data_encrypted: metadata,
                        refunded: false,
                    };
                    let known = old(self).user_map().contains_key(*caller);
                    let related = old(self).record_map().contains_key((*caller, *provider_address));
                    &&& old(self).subscribe_error(*caller, now, paid, *provider_address, plan_index)
                        is None
                    &&& transfer.to == old(self).provider_map()[*provider_address].money_address
                    &&& transfer.amount == immediate_payment(plan.price as int, cap)
                    &&& paid - 1 <= transfer.amount + escrowed_amount(paid as int, cap) <= paid
                    &&& final(self).escrow_moved(*old(self), *provider_address)
                    &&& final(self).schedule(*provider_address) == with_deposit(
                        old(self).schedule(*provider_address),
                        old(self).release_day(now, plan.duration) as u64,
                        escrowed_amount(paid as int, cap) as nat,
                    )
                    &&& final(self).record_map() == old(self).record_map().insert(
                        (*caller, *provider_address),
                        PlanRecordView {
                            subscription_records: old(self).history(*caller, *provider_address).push(
                                record,
                            ),
                            pass_hash: if related {
                                old(self).record_map()[(*caller, *provider_address)].pass_hash
                            } else {
                                pass
                            },
                        },
                    )
                    &&& final(self).index_map() == old(self).index_map().insert(
                        (*caller, *provider_address, plan_index),
                        old(self).history(*caller, *provider_address).len() as u128,
                    )
                    &&& final(self).latest_record(*caller, *provider_address, plan_index) == Some(
                        record,
                    )
                    &&& final(self).user_map() == old(self).user_map().insert(
                        *caller,
                        UserView {
                            list_of_providers: if related {
                                old(self).providers_of(*caller)
                            } else {
                                old(self).providers_of(*caller).push(*provider_address)
                            },
                            subs_crypt_pass_hash: if known {
                                old(self).user_map()[*caller].subs_crypt_pass_hash
                            } else {
                                pass
                            },
                        },
                    )
                },
                Err(e) => {
                    &&& old(self).subscribe_error(*caller, now, paid, *provider_address, plan_index)
                        == Some(e)
                    &&& *final(self) == *old(self)
                },
            },
    {
        let ghost before = *self;
        proof {
            if self.subscribe_error(*caller, now, paid, *provider_address, plan_index) is None {
                lemma_payment_conserved(
                    paid,
                    self.plans(*provider_address)[plan_index as int].max_refund_percent_policy,
                );
            }
        }
        let (owed, consts, day_id, escrow) = match self.subscribe_terms(
            caller,
            now,
            paid,
            provider_address,
            plan_index,
        ) {
            Ok(terms) => terms,
            Err(e) => {
                return Err(e);
            },
        };
        match self.add_entry(provider_address, day_id, escrow) {
            Ok(_) => {},
            Err(e) => {
                // The terms were found with room for the escrow.
                assert(false);
                return Err(e);
            },
        }
        let ghost mid = *self;
        let mut user = match self.users.get(caller) {
            Some(user) => user,
            None => User { list_of_providers: Vec::new(), subs_crypt_pass_hash: pass },
        };
        let mut history = match self.records.get(caller, provider_address) {
            Some(history) => history,
            None => {
                user.list_of_providers.push(*provider_address);
                PlanRecord { subscription_records: Vec::new(), pass_hash: pass }
            },
        };
        let place = history.subscription_records.len() as u128;
        history.subscription_records.push(
            SubscriptionRecord {
                provider: *provider_address,
                plan: consts,
                plan_index,
                subscription_time: now,
                meta_data_encrypted: metadata,
                refunded: false,
            },
        );
        proof {
            assert forall|i: int| 0 <= i < history.subscription_records@.len() implies (
            #[trigger] history.subscription_records@[i]).plan.valid() by {
                if i < place {
                    assert(history.subscription_records@[i] == before.record_map()[(
                        *caller,
                        *provider_address,
                    )].subscription_records[i]);
                }
            }
        }
        self.users.insert(caller, &user);
        self.records.insert(caller, provider_address, &history);
        self.plan_index_to_record_index.insert(caller, provider_address, plan_index, place);
        proof {
            assert(user@.list_of_providers =~= if before.record_map().contains_key(
                (*caller, *provider_address),
            ) {
                before.providers_of(*caller)
            } else {
                before.providers_of(*caller).push(*provider_address)
            });
            assert(history@.subscription_records =~= before.history(
                *caller,
                *provider_address,
            ).push(history.subscription_records@[place as int]));
            lemma_books_after_append(
                mid,
                *self,
                *caller,
                *provider_address,
                history.subscription_records@[place as int],
            );
            lemma_books_commit(mid, *self, *caller, *provider_address, history@);
        }
        Ok(owed)
    }

    /// Why a refund is rejected, if it is. The reasons are tried in this order:
    /// no live subscription to the plan, a time before the subscription's start,
    /// a plan that ends before the contract started, an unknown provider, and
    /// what speaks against taking the escrow out of its bucket.
    pub open spec fn refund_error(
        self,
        caller: AccountId,
        now: u64,
        provider: AccountId,
        plan_index: u128,
    ) -> Option<Error> {
        if !self.subscribed(caller, provider, plan_index, now) {
            Some(Error::NotSubscribed)
        } else {
            let record = self.latest_record(caller, provider, plan_index).unwrap();
            if now < record.subscription_time {
                Some(Error::ClockBeforeStart)
            } else if record.subscription_time + record.plan.duration < self.start_time {
                Some(Error::ClockBeforeStart)
            } else if !self.provider_map().contains_key(provider) {
                Some(Error::ProviderNotFound)
            } else {
                self.remove_entry_error(
                    provider,
                    self.release_day(record.subscription_time, record.plan.duration) as u64,
                    escrowed_amount(
                        record.plan.price as int,
                        record.plan.max_refund_percent_policy as int,
                    ) as u128,
                )
            }
        }
    }

    /// Decides on a refund: the reason against it, or what it pays, the history
    /// and the place of the record in it, the day of the escrow and its amount.
    fn refund_terms(
        &self,
        caller: &AccountId,
        now: u64,
        provider_address: &AccountId,
        plan_index: u128,
    ) -> (terms: Result<(RefundPayout, PlanRecord, usize, u64, u128), Error>)
        requires
            self.wf(),
        ensures
            match terms {
                Ok((payout, history, place, day_id, escrow)) => {
                    let record = self.latest_record(*caller, *provider_address, plan_index).unwrap();
                    let price = record.plan.price as int;
                    let cap = record.plan.max_refund_percent_policy as int;
                    let elapsed = now - record.subscription_time;
                    let duration = record.plan.duration as int;
                    &&& self.refund_error(*caller, now, *provider_address, plan_index) is None
                    &&& payout.user_amount == user_refund(price, cap, elapsed, duration)
                    &&& payout.provider_amount == provider_refund(price, cap, elapsed, duration)
                    &&& payout.money_address == self.provider_map()[*provider_address].money_address
                    &&& self.record_map().contains_key((*caller, *provider_address))
                    &&& history@ == self.record_map()[(*caller, *provider_address)]
                    &&& place == self.index_map()[(*caller, *provider_address, plan_index)]
                    &&& place < history.subscription_records.len()
                    &&& history.subscription_records[place as int] == record
                    &&& day_id == self.release_day(record.subscription_time, record.plan.duration)
                    &&& escrow == escrowed_amount(price, cap)
                },
                Err(e) => self.refund_error(*caller, now, *provider_address, plan_index) == Some(e),
            },
    {
        let (history, place) = match self.find_latest(caller, provider_address, plan_index) {
            Some(found) => found,
            None => {
                return Err(Error::NotSubscribed);
            },
        };
        if !history.subscription_records[place].is_active_at(plan_index, now) {
            return Err(Error::NotSubscribed);
        }
        let plan = history.subscription_records[place].plan;
        let start = history.subscription_records[place].subscription_time;
        assert(plan.valid());
        if now < start {
            return Err(Error::ClockBeforeStart);
        }
        let end: u128 = start as u128 + plan.duration as u128;
        if end < self.start_time as u128 {
            return Err(Error::ClockBeforeStart);
        }
        let provider = match self.providers.get(provider_address) {
            Some(provider) => provider,
            None => {
                return Err(Error::ProviderNotFound);
            },
        };
        assert((end - self.start_time) / 86400 <= u64::MAX) by {
            assert(end - self.start_time <= 2 * u64::MAX);
        }
        let day_id: u64 = ((end - self.start_time as u128) / (SECONDS_PER_DAY as u128)) as u64;
        let elapsed: u64 = now - start;
        let cap = plan.max_refund_percent_policy;
        assert((elapsed * 1000) / (plan.duration as int) < 1000) by (nonlinear_arith)
            requires
                0 <= elapsed < plan.duration,
        ;
        let used: u128 = (elapsed as u128 * 1000) / (plan.duration as u128);
        let remaining: u128 = 1000 - used;
        let share: u128 = if remaining > cap {
            cap
        } else {
            remaining
        };
        let user_amount = permille_share(plan.price, share);
        let provider_amount = permille_share(plan.price, cap - share);
        let escrow = permille_share(plan.price, cap);
        if let Some(e) = self.remove_entry_refusal(provider_address, day_id, escrow) {
            return Err(e);
        }
        let payout = RefundPayout {
            user_amount,
            provider_amount,
            money_address: provider.money_address,
        };
        Ok((payout, history, place, day_id, escrow))
    }

    /// What a refund of the live subscription of `caller` to plan `plan_index`
    /// of `provider_address` pays at time `now`, or why it would be rejected.
    /// The state stays as it is: a caller that cannot undo a call pays first
    /// and refunds then.
    pub fn refund_payout(
        &self,
        caller: &AccountId,
        now: u64,
        provider_address: &AccountId,
        plan_index: u128,
    ) -> (owed: Result<RefundPayout, Error>)
        requires
            self.wf(),
        ensures
            match owed {
                Ok(payout) => {
                    let record = self.latest_record(*caller, *provider_address, plan_index).unwrap();
                    let price = record.plan.price as int;
                    let cap = record.plan.max_refund_percent_policy as int;
                    let elapsed = now - record.subscription_time;
                    let duration = record.plan.duration as int;
                    &&& self.refund_error(*caller, now, *provider_address, plan_index) is None
                    &&& payout.user_amount == user_refund(price, cap, elapsed, duration)
                    &&& payout.provider_amount == provider_refund(price, cap, elapsed, duration)
                    &&& payout.money_address == self.provider_map()[*provider_address].money_address
                },
                Err(e) => self.refund_error(*caller, now, *provider_address, plan_index) == Some(e),
            },
    {
        match self.refund_terms(caller, now, provider_address, plan_index) {
            Ok((payout, _, _, _, _)) => Ok(payout),
            Err(e) => Err(e),
        }
    }

    /// Refunds the live subscription of `caller` to plan `plan_index` of
    /// `provider_address` at time `now`.
    ///
    /// The user is paid the permille of the price that is left of the plan's
    /// time, capped by the refund policy; the provider is paid the rest of the
    /// escrow. The whole escrow of the subscription leaves its bucket, and the
    /// record is marked as refunded.
    pub fn refund(
        &mut self,
        caller: &AccountId,
        now: u64,
        provider_address: &AccountId,
        plan_index: u128,
    ) -> (done: Result<RefundPayout, Error>)
        requires
            old(self).wf(),
        ensures
            final(self).wf(),
            match done {
                Ok(payout) => {
                    let record = old(self).latest_record(
                        *caller,
                        *provider_address,
                        plan_index,
                    ).unwrap();
                    let price = record.plan.price as int;
                    let cap = record.plan.max_refund_percent_policy as int;
                    let elapsed = now - record.subscription_time;
                    let duration = record.plan.duration as int;
                    &&& old(self).refund_error(*caller, now, *provider_address, plan_index) is None
                    &&& payout.user_amount == user_refund(price, cap, elapsed, duration)
                    &&& payout.provider_amount == provider_refund(price, cap, elapsed, duration)
                    &&& payout.money_address == old(self).provider_map()[
                        *provider_address
                    ].money_address
                    &&& final(self).escrow_moved(*old(self), *provider_address)
                    &&& final(self).schedule(*provider_address) == with_withdrawal(
                        old(self).schedule(*provider_address),
                        old(self).release_day(record.subscription_time, record.plan.duration) as u64,
                        escrowed_amount(price, cap) as nat,
                    )
                    &&& final(self).record_map() == old(self).record_map().insert(
                        (*caller, *provider_address),
                        PlanRecordView {
                            subscription_records: old(self).history(
                                *caller,
                                *provider_address,
                            ).update(
                                old(self).index_map()[(*caller, *provider_address, plan_index)] as int,
                                SubscriptionRecord { refunded: true, ..record },
                            ),
                            pass_hash: old(self).record_map()[(*caller, *provider_address)].pass_hash,
                        },
                    )
                    &&& final(self).latest_record(*caller, *provider_address, plan_index) == Some(
                        SubscriptionRecord { refunded: true, ..record },
                    )
                    &&& forall|later: u64| !#[trigger] final(self).subscribed(
                        *caller,
                        *provider_address,
                        plan_index,
                        later,
                    )
                    &&& final(self).users == old(self).users
                    &&& final(self).plan_index_to_record_index == old(
                        self,
                    ).plan_index_to_record_index
                },
                Err(e) => {
                    &&& old(self).refund_error(*caller, now, *provider_address, plan_index) == Some(
                        e,
                    )
                    &&& *final(self) == *old(self)
                },
            },
    {
        let ghost before = *self;
        let (payout, mut history, place, day_id, escrow) = match self.refund_terms(
            caller,
            now,
            provider_address,
            plan_index,
        ) {
            Ok(terms) => terms,
            Err(e) => {
                return Err(e);
            },
        };
        match self.remove_entry(provider_address, day_id, escrow) {
            Ok(_) => {},
            Err(e) => {
                // The terms were found with the escrow in its bucket.
                assert(false);
                return Err(e);
            },
        }
        let ghost mid = *self;
        let flagged = SubscriptionRecord {
            provider: history.subscription_records[place].provider,
            plan: history.subscription_records[place].plan,
            plan_index: history.subscription_records[place].plan_index,
            subscription_time: history.subscription_records[place].subscription_time,
            meta_data_encrypted: history.subscription_records[place].meta_data_encrypted.clone(),
            refunded: true,
        };
        history.subscription_records.set(place, flagged);
        proof {
            assert forall|i: int| 0 <= i < history.subscription_records@.len() implies (
            #[trigger] history.subscription_records@[i]).plan.valid() by {
                if i != place {
                    assert(history.subscription_records@[i] == before.record_map()[(
                        *caller,
                        *provider_address,
                    )].subscription_records[i]);
                } else {
                    assert(before.record_map()[(
                        *caller,
                        *provider_address,
                    )].subscription_records[i].plan.valid());
                }
            }
        }
        self.records.insert(caller, provider_address, &history);
        proof {
            assert(history@.subscription_records =~= mid.history(*caller, *provider_address).update(
                place as int,
                SubscriptionRecord {
                    refunded: true,
                    ..mid.history(*caller, *provider_address)[place as int]
                },
            ));
            lemma_books_after_flag(mid, *self, *caller, *provider_address, place as int);
            lemma_books_commit(mid, *self, *caller, *provider_address, history@);
        }
        Ok(payout)
    }

    /// Why a withdrawal is rejected, if it is: the caller is no provider, or the
    /// time lies before the contract's start.
    pub open spec fn withdraw_error(self, caller: AccountId, now: u64) -> Option<Error> {
        if !self.provider_map().contains_key(caller) {
            Some(Error::NotRegistered)
        } else if now < self.start_time {
            Some(Error::ClockBeforeStart)
        } else {
            None
        }
    }

    /// What a withdrawal at time `now` would pay provider `caller`: the sum
    /// that has matured in its escrow by the day of `now`; or why it would be
    /// rejected. The state stays as it is: a caller that cannot undo a call
    /// pays first and withdraws then.
    pub fn withdrawable_amount(&self, caller: &AccountId, now: u64) -> (owed: Result<u128, Error>)
        requires
            self.wf(),
        ensures
            match owed {
                Ok(paid) => {
                    &&& self.withdraw_error(*caller, now) is None
                    &&& paid == matured_sum(
                        self.schedule(*caller),
                        day_of(now as int, self.start_time as int) as u64,
                    )
                },
                Err(e) => self.withdraw_error(*caller, now) == Some(e),
            },
    {
        if self.providers.get(caller).is_none() {
            return Err(Error::NotRegistered);
        }
        if now < self.start_time {
            return Err(Error::ClockBeforeStart);
        }
        let today: u64 = (now - self.start_time) / SECONDS_PER_DAY;
        match self.process(caller, today) {
            Ok((paid, _, _)) => Ok(paid),
            Err(_) => Err(Error::NotRegistered),
        }
    }

    /// Releases to provider `caller` what has matured in its escrow by the day
    /// of `now`, and gives the sum, which the provider is owed. Nothing matured
    /// is a payment of 0, not an error.
    pub fn withdraw(&mut self, caller: &AccountId, now: u64) -> (done: Result<u128, Error>)
        requires
            old(self).wf(),
        ensures
            final(self).wf(),
            match done {
                Ok(paid) => {
                    let today = day_of(now as int, old(self).start_time as int) as u64;
                    &&& old(self).withdraw_error(*caller, now) is None
                    &&& paid == matured_sum(old(self).schedule(*caller), today)
                    &&& final(self).schedule(*caller) == unreleased(
                        old(self).schedule(*caller),
                        today,
                    )
                    &&& final(self).differs_in_escrow_of(*old(self), *caller)
                },
                Err(e) => {
                    &&& old(self).withdraw_error(*caller, now) == Some(e)
                    &&& *final(self) == *old(self)
                },
            },
    {
        if self.providers.get(caller).is_none() {
            return Err(Error::NotRegistered);
        }
        if now < self.start_time {
            return Err(Error::ClockBeforeStart);
        }
        let today: u64 = (now - self.start_time) / SECONDS_PER_DAY;
        match self.release(caller, today) {
            Ok((paid, _, _)) => Ok(paid),
            Err(_) => Err(Error::NotRegistered),
        }
    }

    /// Why a renewal is rejected, if it is. The reasons are tried in this
    /// order: no subscription of the caller to the plan that was not refunded,
    /// an unknown provider, an index that names no plan, a payment that is not
    /// the price, a disabled plan, a period that would start beyond the largest
    /// time or before the contract started, escrow of the ending period that
    /// its bucket no longer holds, and what speaks against locking the new
    /// escrow.
    pub open spec fn renew_error(
        self,
        caller: AccountId,
        paid: u128,
        provider: AccountId,
        plan_index: u128,
    ) -> Option<Error> {
        match self.latest_record(caller, provider, plan_index) {
            None => Some(Error::NotSubscribed),
            Some(prior) => if prior.plan_index != plan_index || prior.refunded {
                Some(Error::NotSubscribed)
            } else if !self.provider_map().contains_key(provider) {
                Some(Error::ProviderNotFound)
            } else if plan_index >= self.plans(provider).len() {
                Some(Error::InvalidPlanIndex)
            } else {
                let plan = self.plans(provider)[plan_index as int];
                let start = prior.subscription_time + prior.plan.duration;
                if plan.price != paid {
                    Some(Error::WrongPayment)
                } else if plan.disabled {
                    Some(Error::PlanDisabled)
                } else if start > u64::MAX {
                    Some(Error::TimeOverflow)
                } else if start < self.start_time {
                    Some(Error::ClockBeforeStart)
                } else if self.remove_entry_error(
                    provider,
                    self.release_day(prior.subscription_time, prior.plan.duration) as u64,
                    escrowed_amount(
                        prior.plan.price as int,
                        prior.plan.max_refund_percent_policy as int,
                    ) as u128,
                ) is Some {
                    Some(Error::EscrowMissing)
                } else {
                    self.add_entry_error(
                        provider,
                        self.release_day(start as u64, plan.duration) as u64,
                        escrowed_amount(paid as int, plan.max_refund_percent_policy as int) as u128,
                    )
                }
            },
        }
    }

    /// Decides on a renewal: the reason against it, or what it pays, the
    /// history, the plan's terms of now, the start of the new period, the day
    /// of the prior escrow, and the day and the amount of the new one.
    fn renew_terms(
        &self,
        caller: &AccountId,
        paid: u128,
        provider_address: &AccountId,
        plan_index: u128,
    ) -> (terms: Result<(RenewPayout, PlanRecord, PlanConsts, u64, u64, u64, u128), Error>)
        requires
            self.wf(),
        ensures
            match terms {
                Ok((payout, history, plan, start, prior_day, day_id, escrow)) => {
                    let prior = self.latest_record(*caller, *provider_address, plan_index).unwrap();
                    let cap = plan.max_refund_percent_policy as int;
                    &&& self.renew_error(*caller, paid, *provider_address, plan_index) is None
                    &&& plan == self.plans(*provider_address)[plan_index as int]
                    &&& plan.valid()
                    &&& payout.money_address == self.provider_map()[*provider_address].money_address
                    &&& payout.immediate == immediate_payment(plan.price as int, cap)
                    &&& payout.released == escrowed_amount(
                        prior.plan.price as int,
                        prior.plan.max_refund_percent_policy as int,
                    )
                    &&& self.record_map().contains_key((*caller, *provider_address))
                    &&& history@ == self.record_map()[(*caller, *provider_address)]
                    &&& self.index_map().contains_key((*caller, *provider_address, plan_index))
                    &&& start == prior.subscription_time + prior.plan.duration
                    &&& prior_day == self.release_day(prior.subscription_time, prior.plan.duration)
                    &&& day_id == self.release_day(start, plan.duration)
                    &&& escrow == escrowed_amount(paid as int, cap)
                },
                Err(e) => self.renew_error(*caller, paid, *provider_address, plan_index) == Some(e),
            },
    {
        let (history, place) = match self.find_latest(caller, provider_address, plan_index) {
            Some(found) => found,
            None => {
                return Err(Error::NotSubscribed);
            },
        };
        if history.subscription_records[place].plan_index != plan_index
            || history.subscription_records[place].refunded {
            return Err(Error::NotSubscribed);
        }
        let prior_plan = history.subscription_records[place].plan;
        let prior_start = history.subscription_records[place].subscription_time;
        assert(prior_plan.valid());
        let provider = match self.providers.get(provider_address) {
            Some(provider) => provider,
            None => {
                return Err(Error::ProviderNotFound);
            },
        };
        if plan_index >= provider.plans.len() as u128 {
            return Err(Error::InvalidPlanIndex);
        }
        let consts = provider.plans[plan_index as usize];
        assert(consts == self.plans(*provider_address)[plan_index as int]);
        assert(consts.valid());
        if consts.price != paid {
            return Err(Error::WrongPayment);
        }
        if consts.disabled {
            return Err(Error::PlanDisabled);
        }
        let prior_end: u128 = prior_start as u128 + prior_plan.duration as u128;
        if prior_end > u64::MAX as u128 {
            return Err(Error::TimeOverflow);
        }
        if prior_end < self.start_time as u128 {
            return Err(Error::ClockBeforeStart);
        }
        let start: u64 = prior_end as u64;
        assert((prior_end - self.start_time) / 86400 <= u64::MAX);
        let prior_day: u64 = ((prior_end - self.start_time as u128) / (SECONDS_PER_DAY as u128)) as u64;
        let end: u128 = prior_end + consts.duration as u128;
        assert((end - self.start_time) / 86400 <= u64::MAX) by {
            assert(end - self.start_time <= 2 * u64::MAX);
        }
        let day_id: u64 = ((end - self.start_time as u128) / (SECONDS_PER_DAY as u128)) as u64;
        let released = permille_share(prior_plan.price, prior_plan.max_refund_percent_policy);
        if self.remove_entry_refusal(provider_address, prior_day, released).is_some() {
            return Err(Error::EscrowMissing);
        }
        let immediate = permille_share(consts.price, 1000 - consts.max_refund_percent_policy);
        let escrow = permille_share(paid, consts.max_refund_percent_policy);
        if let Some(e) = self.add_entry_refusal(provider_address, day_id, escrow) {
            return Err(e);
        }
        let payout = RenewPayout { immediate, released, money_address: provider.money_address };
        Ok((payout, history, consts, start, prior_day, day_id, escrow))
    }

    /// What a renewal by `caller`, who paid `paid`, of its latest subscription
    /// to plan `plan_index` of `provider_address` pays the provider, or why it
    /// would be rejected. The state stays as it is: a caller that cannot undo a
    /// call pays first and renews then.
    pub fn renew_payout(
        &self,
        caller: &AccountId,
        paid: u128,
        provider_address: &AccountId,
        plan_index: u128,
    ) -> (owed: Result<RenewPayout, Error>)
        requires
            self.wf(),
        ensures
            match owed {
                Ok(payout) => {
                    let prior = self.latest_record(*caller, *provider_address, plan_index).unwrap();
                    let plan = self.plans(*provider_address)[plan_index as int];
                    &&& self.renew_error(*caller, paid, *provider_address, plan_index) is None
                    &&& payout.money_address == self.provider_map()[*provider_address].money_address
                    &&& payout.immediate == immediate_payment(
                        plan.price as int,
                        plan.max_refund_percent_policy as int,
                    )
                    &&& payout.released == escrowed_amount(
                        prior.plan.price as int,
                        prior.plan.max_refund_percent_policy as int,
                    )
                },
                Err(e) => self.renew_error(*caller, paid, *provider_address, plan_index) == Some(e),
            },
    {
        match self.renew_terms(caller, paid, provider_address, plan_index) {
            Ok((payout, _, _, _, _, _, _)) => Ok(payout),
            Err(e) => Err(e),
        }
    }

    /// Renews the latest subscription of `caller`, who paid `paid`, to plan
    /// `plan_index` of `provider_address`, be it live or expired.
    ///
    /// The new period starts where the prior one ends, with the plan's terms
    /// of now. The escrow of the prior period leaves its bucket and goes to the
    /// provider together with the part of the payment that is not escrowed; the
    /// new escrow is locked for the day on which the new period ends. A new
    /// record joins the history, and the prior one stays as it is.
    pub fn renew(
        &mut self,
        caller: &AccountId,
        paid: u128,
        provider_address: &AccountId,
        plan_index: u128,
        metadata: String,
    ) -> (done: Result<RenewPayout, Error>)
        requires
            old(self).wf(),
        ensures
            final(self).wf(),
            match done {
                Ok(payout) => {
                    let prior = old(self).latest_record(
                        *caller,
                        *provider_address,
                        plan_index,
                    ).unwrap();
                    let plan = old(self).plans(*provider_address)[plan_index as int];
                    let cap = plan.max_refund_percent_policy as int;
                    let start = (prior.subscription_time + prior.plan.duration) as u64;
                    let record = SubscriptionRecord {
                        provider: *provider_address,
                        plan,
                        plan_index,
                        subscription_time: start,
                        meta_data_encrypted: metadata,
                        refunded: false,
                    };
                    &&& old(self).renew_error(*caller, paid, *provider_address, plan_index) is None
                    &&& payout.money_address == old(self).provider_map()[
                        *provider_address
                    ].money_address
                    &&& payout.immediate == immediate_payment(plan.price as int, cap)
                    &&& payout.released == escrowed_amount(
                        prior.plan.price as int,
                        prior.plan.max_refund_percent_policy as int,
                    )
                    &&& final(self).escrow_moved(*old(self), *provider_address)
                    &&& final(self).schedule(*provider_address) == with_withdrawal(
                        with_deposit(
                            old(self).schedule(*provider_address),
                            old(self).release_day(start, plan.duration) as u64,
                            escrowed_amount(paid as int, cap) as nat,
                        ),
                        old(self).release_day(prior.subscription_time, prior.plan.duration) as u64,
                        payout.released as nat,
                    )
                    &&& final(self).record_map() == old(self).record_map().insert(
                        (*caller, *provider_address),
                        PlanRecordView {
                            subscription_records: old(self).history(*caller, *provider_address).push(
                                record,
                            ),
                            pass_hash: old(self).record_map()[(*caller, *provider_address)].pass_hash,
                        },
                    )
                    &&& final(self).index_map() == old(self).index_map().insert(
                        (*caller, *provider_address, plan_index),
                        old(self).history(*caller, *provider_address).len() as u128,
                    )
                    &&& final(self).latest_record(*caller, *provider_address, plan_index) == Some(
                        record,
                    )
                    &&& final(self).users == old(self).users
                },
                Err(e) => {
                    &&& old(self).renew_error(*caller, paid, *provider_address, plan_index) == Some(
                        e,
                    )
                    &&& *final(self) == *old(self)
                },
            },
    {
        let ghost before = *self;
        let (payout, mut history, consts, start, prior_day, day_id, escrow) = match self.renew_terms(
            caller,
            paid,
            provider_address,
            plan_index,
        ) {
            Ok(terms) => terms,
            Err(e) => {
                return Err(e);
            },
        };
        match self.add_entry(provider_address, day_id, escrow) {
            Ok(_) => {},
            Err(e) => {
                // The terms were found with room for the new escrow.
                assert(false);
                return Err(e);
            },
        }
        proof {
            let s = before.schedule(*provider_address);
            before.lemma_bucket_in_schedule(*provider_address, prior_day);
            if day_id == prior_day {
                lemma_deposit_then_withdrawal(s, day_id, escrow as nat, 0);
            } else {
                lemma_deposit_keeps_others(s, day_id, escrow as nat, prior_day);
            }
        }
        match self.remove_entry(provider_address, prior_day, payout.released) {
            Ok(_) => {},
            Err(e) => {
                // Locking the new escrow left the prior one in its bucket.
                assert(false);
                return Err(e);
            },
        }
        let ghost mid = *self;
        let next_place = history.subscription_records.len() as u128;
        history.subscription_records.push(
            SubscriptionRecord {
                provider: *provider_address,
                plan: consts,
                plan_index,
                subscription_time: start,
                meta_data_encrypted: metadata,
                refunded: false,
            },
        );
        proof {
            assert forall|i: int| 0 <= i < history.subscription_records@.len() implies (
            #[trigger] history.subscription_records@[i]).plan.valid() by {
                if i < next_place {
                    assert(history.subscription_records@[i] == before.record_map()[(
                        *caller,
                        *provider_address,
                    )].subscription_records[i]);
                }
            }
        }
        self.records.insert(caller, provider_address, &history);
        self.plan_index_to_record_index.insert(caller, provider_address, plan_index, next_place);
        proof {
            assert(history@.subscription_records =~= mid.history(*caller, *provider_address).push(
                history.subscription_records@[next_place as int],
            ));
            assert(mid.user_map().dom().insert(*caller) =~= mid.user_map().dom());
            lemma_books_after_append(
                mid,
                *self,
                *caller,
                *provider_address,
                history.subscription_records@[next_place as int],
            );
            lemma_books_commit(mid, *self, *caller, *provider_address, history@);
        }
        Ok(payout)
    }
}

/// Idempotent withdrawal: where `second` is the state that a withdrawal of
/// provider `caller` at time `now` left of `first`, a withdrawal at `again`, no
/// later than `now`, finds nothing that has matured, and pays 0.
pub proof fn lemma_second_withdraw_pays_nothing(
    first: Subscrypt,
    second: Subscrypt,
    caller: AccountId,
    now: u64,
    again: u64,
)
    requires
        first.start_time <= again <= now,
        second.start_time == first.start_time,
        second.schedule(caller) == unreleased(
            first.schedule(caller),
            day_of(now as int, first.start_time as int) as u64,
        ),
    ensures
        matured_sum(
            second.schedule(caller),
            day_of(again as int, second.start_time as int) as u64,
        ) == 0,
{
    let today = day_of(now as int, first.start_time as int);
    let then = day_of(again as int, first.start_time as int);
    assert(0 <= then <= today <= u64::MAX);
    lemma_second_release_is_empty(first.schedule(caller), today as u64, then as u64);
}

} // verus!
