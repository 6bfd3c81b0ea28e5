//! The records that the contract keeps: providers, users and subscriptions.

use vstd::prelude::*;
use crate::account::AccountId;
use crate::plan::PlanConsts;

verus! {

/// The escrow chain of one provider: its first and last day, the number of
/// buckets between them, and the sum that the buckets hold.
#[derive(Clone, Copy, Debug, PartialEq, Eq)]
pub struct LinkedList {
    pub head: u64,
    pub back: u64,
    pub length: u128,
    pub locked: u128,
}

impl LinkedList {
    /// The empty chain.
    pub fn new() -> (list: LinkedList)
        ensures
            list.head == 0,
            list.back == 0,
            list.length == 0,
            list.locked == 0,
    {
        LinkedList::default()
    }

    /// The empty chain.
    pub fn default() -> (list: LinkedList)
        ensures
            list.head == 0,
            list.back == 0,
            list.length == 0,
            list.locked == 0,
    {
        LinkedList { head: 0, back: 0, length: 0, locked: 0 }
    }

    /// The chain whose fields are the given values, in the order of the fields.
    pub fn from_parts(parts: (u64, u64, u128, u128)) -> (list: LinkedList)
        ensures
            list.parts_spec() == parts,
    {
        LinkedList { head: parts.0, back: parts.1, length: parts.2, locked: parts.3 }
    }

    /// The chain's fields, in order.
    pub open spec fn parts_spec(self) -> (u64, u64, u128, u128) {
        (self.head, self.back, self.length, self.locked)
    }

    /// The chain's fields, in order.
    pub fn parts(&self) -> (parts: (u64, u64, u128, u128))
        ensures
            parts == self.parts_spec(),
    {
        (self.head, self.back, self.length, self.locked)
    }
}

/// The amount that unlocks on one day, and the day of the next bucket in the
/// provider's chain.
#[derive(Clone, Copy, Debug, PartialEq, Eq)]
pub struct DailyLockedAmount {
    pub amount: u128,
    pub next_day: u64,
}

/// A provider: its plans, where its money goes, and its escrow chain.
#[derive(Clone, Debug)]
pub struct Provider {
    pub plans: Vec<PlanConsts>,
    pub money_address: AccountId,
    pub payment_manager: LinkedList,
}

/// A provider as a mathematical value.
pub ghost struct ProviderView {
    pub plans: Seq<PlanConsts>,
    pub money_address: AccountId,
    pub payment_manager: LinkedList,
}

impl View for Provider {
    type V = ProviderView;

    open spec fn view(&self) -> ProviderView {
        ProviderView {
            plans: self.plans@,
            money_address: self.money_address,
            payment_manager: self.payment_manager,
        }
    }
}

/// One subscription: the plan as it was when it was bought, when it started,
/// and whether it was refunded.
#[derive(Clone, Debug)]
pub struct SubscriptionRecord {
    pub provider: AccountId,
    pub plan: PlanConsts,
    pub plan_index: u128,
    pub subscription_time: u64,
    pub meta_data_encrypted: String,
    pub refunded: bool,
}

impl SubscriptionRecord {
    /// The record whose fields are the given values, in the order of the fields.
    pub fn from_parts(
        parts: ([u8; 32], (u64, u128, u128, u128, bool), u128, u64, String, bool),
    ) -> (record: SubscriptionRecord)
        ensures
            record.parts_spec() == parts,
    {
        SubscriptionRecord {
            provider: AccountId { bytes: parts.0 },
            plan: PlanConsts::from_parts(parts.1),
            plan_index: parts.2,
            subscription_time: parts.3,
            meta_data_encrypted: parts.4,
            refunded: parts.5,
        }
    }

    /// The record's fields, in order.
    pub open spec fn parts_spec(self) -> (
        [u8; 32],
        (u64, u128, u128, u128, bool),
        u128,
        u64,
        String,
        bool,
    ) {
        (
            self.provider.bytes,
            self.plan.parts_spec(),
            self.plan_index,
            self.subscription_time,
            self.meta_data_encrypted,
            self.refunded,
        )
    }

    /// The record's fields, in order.
    pub fn parts(&self) -> (parts: (
        [u8; 32],
        (u64, u128, u128, u128, bool),
        u128,
        u64,
        String,
        bool,
    ))
        ensures
            parts == self.parts_spec(),
    {
        (
            self.provider.bytes,
            self.plan.parts(),
            self.plan_index,
            self.subscription_time,
            self.meta_data_encrypted.clone(),
            self.refunded,
        )
    }

    /// Whether the record stands for a live subscription to plan `plan_index`
    /// at time `now`: it is of that plan, was not refunded, and `now` lies
    /// before the end of its period.
    pub open spec fn active_at(self, plan_index: u128, now: u64) -> bool {
        &&& self.plan_index == plan_index
        &&& !self.refunded
        &&& now < self.subscription_time + self.plan.duration
    }

    /// Whether the record stands for a live subscription to plan `plan_index`
    /// at time `now`.
    pub fn is_active_at(&self, plan_index: u128, now: u64) -> (active: bool)
        ensures
            active == self.active_at(plan_index, now),
    {
        let end: u128 = self.subscription_time as u128 + self.plan.duration as u128;
        self.plan_index == plan_index && !self.refunded && (now as u128) < end
    }
}

/// Active-window boundary: a subscription that was not refunded, to a plan that
/// lasts at least one unit of time, is live at its start and one unit before
/// its end, and no longer at its end.
pub proof fn lemma_active_window(record: SubscriptionRecord, now: u64)
    requires
        !record.refunded,
        record.plan.duration > 0,
    ensures
        now == record.subscription_time ==> record.active_at(record.plan_index, now),
        now == record.subscription_time + record.plan.duration - 1 ==> record.active_at(
            record.plan_index,
            now,
        ),
        now == record.subscription_time + record.plan.duration ==> !record.active_at(
            record.plan_index,
            now,
        ),
{
}

/// The history of one user with one provider, and the hash that guards it.
#[derive(Clone, Debug)]
pub struct PlanRecord {
    pub subscription_records: Vec<SubscriptionRecord>,
    pub pass_hash: [u8; 32],
}

/// A history as a mathematical value.
pub ghost struct PlanRecordView {
    pub subscription_records: Seq<SubscriptionRecord>,
    pub pass_hash: [u8; 32],
}

impl View for PlanRecord {
    type V = PlanRecordView;

    open spec fn view(&self) -> PlanRecordView {
        PlanRecordView {
            subscription_records: self.subscription_records@,
            pass_hash: self.pass_hash,
        }
    }
}

/// A user: the providers subscribed to, in the order of the first subscription,
/// and the hash that guards the whole history.
#[derive(Clone, Debug)]
pub struct User {
    pub list_of_providers: Vec<AccountId>,
    pub subs_crypt_pass_hash: [u8; 32],
}

/// A user as a mathematical value.
pub ghost struct UserView {
    pub list_of_providers: Seq<AccountId>,
    pub subs_crypt_pass_hash: [u8; 32],
}

impl View for User {
    type V = UserView;

    open spec fn view(&self) -> UserView {
        UserView {
            list_of_providers: self.list_of_providers@,
            subs_crypt_pass_hash: self.subs_crypt_pass_hash,
        }
    }
}

} // verus!
