//! The plan catalog: registering providers, adding and editing their plans.

use vstd::prelude::*;
use crate::account::AccountId;
use crate::error::Error;
use crate::plan::PlanConsts;
use crate::record::{LinkedList, Provider, ProviderView};
use crate::state::{chain_ok, schedule_of, Subscrypt};
use crate::ledger::Bucket;

verus! {

/// The plans that four vectors describe: plan `i` has the `i`-th entry of each,
/// and is enabled.
pub open spec fn plans_from(
    durations: Seq<u64>,
    active_session_limits: Seq<u128>,
    prices: Seq<u128>,
    max_refund_percent_policies: Seq<u128>,
) -> Seq<PlanConsts> {
    Seq::new(
        durations.len(),
        |i: int|
            PlanConsts {
                duration: durations[i],
                active_session_limit: active_session_limits[i],
                price: prices[i],
                max_refund_percent_policy: max_refund_percent_policies[i],
                disabled: false,
            },
    )
}

/// Every plan of the sequence is valid.
pub open spec fn all_valid(plans: Seq<PlanConsts>) -> bool {
    forall|i: int| 0 <= i < plans.len() ==> (#[trigger] plans[i]).valid()
}

/// The four vectors have one length.
pub open spec fn same_lengths(
    durations: Seq<u64>,
    active_session_limits: Seq<u128>,
    prices: Seq<u128>,
    max_refund_percent_policies: Seq<u128>,
) -> bool {
    &&& durations.len() == active_session_limits.len()
    &&& prices.len() == active_session_limits.len()
    &&& max_refund_percent_policies.len() == active_session_limits.len()
}

/// Builds the plans that the vectors describe, or finds the first reason
/// against them: unequal lengths, then a refund policy above 1000 permille.
pub fn build_plans(
    durations: &Vec<u64>,
    active_session_limits: &Vec<u128>,
    prices: &Vec<u128>,
    max_refund_percent_policies: &Vec<u128>,
) -> (built: Result<Vec<PlanConsts>, Error>)
    ensures
        match built {
            Ok(plans) => {
                &&& same_lengths(
                    durations@,
                    active_session_limits@,
                    prices@,
                    max_refund_percent_policies@,
                )
                &&& plans@ == plans_from(
                    durations@,
                    active_session_limits@,
                    prices@,
                    max_refund_percent_policies@,
                )
                &&& all_valid(plans@)
            },
            Err(e) => if !same_lengths(
                durations@,
                active_session_limits@,
                prices@,
                max_refund_percent_policies@,
            ) {
                e == Error::MismatchedPlanVectors
            } else {
                e == Error::InvalidRefundPolicy && !all_valid(
                    plans_from(
                        durations@,
                        active_session_limits@,
                        prices@,
                        max_refund_percent_policies@,
                    ),
                )
            },
        },
{
    let count = active_session_limits.len();
    if durations.len() != count || prices.len() != count || max_refund_percent_policies.len()
        != count {
        return Err(Error::MismatchedPlanVectors);
    }
    let ghost target = plans_from(
        durations@,
        active_session_limits@,
        prices@,
        max_refund_percent_policies@,
    );
    let mut plans: Vec<PlanConsts> = Vec::new();
    let mut i: usize = 0;
    while i < count
        invariant
            i <= count,
            count == durations.len(),
            count == active_session_limits.len(),
            count == prices.len(),
            count == max_refund_percent_policies.len(),
            target == plans_from(
                durations@,
                active_session_limits@,
                prices@,
                max_refund_percent_policies@,
            ),
            plans@ == target.take(i as int),
            all_valid(plans@),
        decreases count - i,
    {
        let plan = PlanConsts {
            duration: durations[i],
            active_session_limit: active_session_limits[i],
            price: prices[i],
            max_refund_percent_policy: max_refund_percent_policies[i],
            disabled: false,
        };
        if plan.max_refund_percent_policy > 1000 {
            assert(!target[i as int].valid());
            return Err(Error::InvalidRefundPolicy);
        }
        plans.push(plan);
        i += 1;
        assert(plans@ =~= target.take(i as int));
    }
    assert(plans@ =~= target);
    Ok(plans)
}

/// A change to the plans of a provider, or to where its money goes, that keeps
/// every plan valid leaves the state well formed.
pub proof fn lemma_catalog_commit(
    before: Subscrypt,
    after: Subscrypt,
    provider: AccountId,
    entry: ProviderView,
)
    requires
        before.wf(),
        before.provider_map().contains_key(provider),
        entry.payment_manager == before.provider_map()[provider].payment_manager,
        all_valid(entry.plans),
        after.provider_map() == before.provider_map().insert(provider, entry),
        after.users == before.users,
        after.records == before.records,
        after.plan_index_to_record_index == before.plan_index_to_record_index,
        after.same_names(before),
        after.daily_locked_amounts == before.daily_locked_amounts,
        after.chains == before.chains,
    ensures
        after.wf(),
        forall|q: AccountId| #[trigger] after.schedule(q) == before.schedule(q),
{
    assert(after.provider_map().dom() =~= before.provider_map().dom());
    assert forall|q: AccountId| #[trigger] after.provider_map().contains_key(q) implies chain_ok(
        after.bucket_map(),
        q,
        after.provider_map()[q].payment_manager,
        after.days(q),
    ) by {
        assert(before.provider_map().contains_key(q));
    }
}

/// A new provider with an empty escrow and valid plans leaves the state well
/// formed.
pub proof fn lemma_register_commit(
    before: Subscrypt,
    after: Subscrypt,
    provider: AccountId,
    entry: ProviderView,
)
    requires
        before.wf(),
        !before.provider_map().contains_key(provider),
        entry.payment_manager == (LinkedList { head: 0, back: 0, length: 0, locked: 0 }),
        all_valid(entry.plans),
        after.provider_map() == before.provider_map().insert(provider, entry),
        after.users == before.users,
        after.records == before.records,
        after.plan_index_to_record_index == before.plan_index_to_record_index,
        after.same_names(before),
        after.daily_locked_amounts == before.daily_locked_amounts,
        after.chains@ == before.chains@.insert(provider, Seq::empty()),
    ensures
        after.wf(),
        after.schedule(provider) == Seq::<Bucket>::empty(),
        forall|q: AccountId| q != provider ==> #[trigger] after.schedule(q) == before.schedule(q),
{
    assert forall|q: AccountId| #[trigger] after.provider_map().contains_key(q) implies chain_ok(
        after.bucket_map(),
        q,
        after.provider_map()[q].payment_manager,
        after.days(q),
    ) by {
        if q == provider {
            reveal(chain_ok);
            assert(schedule_of(after.bucket_map(), q, Seq::<u64>::empty()) =~= Seq::<
                Bucket,
            >::empty());
        } else {
            assert(before.provider_map().contains_key(q));
        }
    }
    assert(after.schedule(provider) =~= Seq::<Bucket>::empty());
}

impl Subscrypt {
    /// Why a registration is rejected, if it is. The reasons are tried in this
    /// order: a payment below the fee, a caller that is a provider already,
    /// plan vectors of unequal length, a refund policy above 1000 permille, a
    /// full provider table.
    pub open spec fn register_error(
        self,
        caller: AccountId,
        paid: u128,
        plans: Seq<PlanConsts>,
        lengths_agree: bool,
    ) -> Option<Error> {
        if paid < self.provider_register_fee {
            Some(Error::InsufficientRegistrationFee)
        } else if self.provider_map().contains_key(caller) {
            Some(Error::AlreadyRegistered)
        } else if !lengths_agree {
            Some(Error::MismatchedPlanVectors)
        } else if !all_valid(plans) {
            Some(Error::InvalidRefundPolicy)
        } else if self.provider_map().dom().len() >= u32::MAX {
            Some(Error::StorageFull)
        } else {
            None
        }
    }

    /// `self` is `before` but for the providers and their escrow.
    pub open spec fn same_but_providers(self, before: Subscrypt) -> bool {
        &&& self.start_time == before.start_time
        &&& self.provider_register_fee == before.provider_register_fee
        &&& self.users == before.users
        &&& self.records == before.records
        &&& self.plan_index_to_record_index == before.plan_index_to_record_index
        &&& self.same_names(before)
        &&& self.daily_locked_amounts == before.daily_locked_amounts
    }

    /// Registers `caller`, who paid `paid`, as a provider with the plans that
    /// the vectors describe and `address` as the destination of its money.
    pub fn provider_register(
        &mut self,
        caller: &AccountId,
        paid: u128,
        durations: Vec<u64>,
        active_session_limits: Vec<u128>,
        prices: Vec<u128>,
        max_refund_percent_policies: Vec<u128>,
        address: AccountId,
    ) -> (done: Result<(), Error>)
        requires
            old(self).wf(),
        ensures
            final(self).wf(),
            ({
                let plans = plans_from(
                    durations@,
                    active_session_limits@,
                    prices@,
                    max_refund_percent_policies@,
                );
                let agree = same_lengths(
                    durations@,
                    active_session_limits@,
                    prices@,
                    max_refund_percent_policies@,
                );
                match done {
                    Ok(_) => {
                        &&& old(self).register_error(*caller, paid, plans, agree) is None
                        &&& final(self).same_but_providers(*old(self))
                        &&& final(self).provider_map() == old(self).provider_map().insert(
                            *caller,
                            ProviderView {
                                plans,
                                money_address: address,
                                payment_manager: LinkedList {
                                    head: 0,
                                    back: 0,
                                    length: 0,
                                    locked: 0,
                                },
                            },
                        )
                        &&& final(self).schedule(*caller) == Seq::<Bucket>::empty()
                        &&& forall|q: AccountId|
                            q != *caller ==> #[trigger] final(self).schedule(q) == old(
                                self,
                            ).schedule(q)
                    },
                    Err(e) => {
                        &&& old(self).register_error(*caller, paid, plans, agree) == Some(e)
                        &&& *final(self) == *old(self)
                    },
                }
            }),
    {
        let ghost before = *self;
        if paid < self.provider_register_fee {
            return Err(Error::InsufficientRegistrationFee);
        }
        if self.providers.get(caller).is_some() {
            return Err(Error::AlreadyRegistered);
        }
        let plans = match build_plans(
            &durations,
            &active_session_limits,
            &prices,
            &max_refund_percent_policies,
        ) {
            Ok(plans) => plans,
            Err(e) => {
                return Err(e);
            },
        };
        if self.providers.len() == u32::MAX {
            return Err(Error::StorageFull);
        }
        let provider = Provider {
            plans,
            money_address: address,
            payment_manager: LinkedList::new(),
        };
        self.providers.insert(caller, &provider);
        self.chains = Ghost(self.chains@.insert(*caller, Seq::empty()));
        proof {
            lemma_register_commit(before, *self, *caller, provider@);
        }
        Ok(())
    }

    /// Why new plans are rejected, if they are. The reasons are tried in this
    /// order: plan vectors of unequal length, a caller that is no provider, a
    /// refund policy above 1000 permille.
    pub open spec fn add_plan_error(
        self,
        caller: AccountId,
        plans: Seq<PlanConsts>,
        lengths_agree: bool,
    ) -> Option<Error> {
        if !lengths_agree {
            Some(Error::MismatchedPlanVectors)
        } else if !self.provider_map().contains_key(caller) {
            Some(Error::NotRegistered)
        } else if !all_valid(plans) {
            Some(Error::InvalidRefundPolicy)
        } else {
            None
        }
    }

    /// `self` is `before` but for the plans of `provider`, which are `plans`.
    pub open spec fn plans_replaced(
        self,
        before: Subscrypt,
        provider: AccountId,
        plans: Seq<PlanConsts>,
    ) -> bool {
        &&& self.same_but_providers(before)
        &&& self.provider_map() == before.provider_map().insert(
            provider,
            ProviderView { plans, ..before.provider_map()[provider] },
        )
        &&& forall|q: AccountId| #[trigger] self.schedule(q) == before.schedule(q)
    }

    /// Appends the plans that the vectors describe to the plans of `caller`.
    /// The plans that were there keep their indices.
    pub fn add_plan(
        &mut self,
        caller: &AccountId,
        durations: Vec<u64>,
        active_session_limits: Vec<u128>,
        prices: Vec<u128>,
        max_refund_percent_policies: Vec<u128>,
    ) -> (done: Result<(), Error>)
        requires
            old(self).wf(),
        ensures
            final(self).wf(),
            ({
                let plans = plans_from(
                    durations@,
                    active_session_limits@,
                    prices@,
                    max_refund_percent_policies@,
                );
                let agree = same_lengths(
                    durations@,
                    active_session_limits@,
                    prices@,
                    max_refund_percent_policies@,
                );
                match done {
                    Ok(_) => {
                        &&& old(self).add_plan_error(*caller, plans, agree) is None
                        &&& final(self).plans_replaced(
                            *old(self),
                            *caller,
                            old(self).plans(*caller) + plans,
                        )
                    },
                    Err(e) => {
                        &&& old(self).add_plan_error(*caller, plans, agree) == Some(e)
                        &&& *final(self) == *old(self)
                    },
                }
            }),
    {
        let ghost before = *self;
        let count = active_session_limits.len();
        if durations.len() != count || prices.len() != count || max_refund_percent_policies.len()
            != count {
            return Err(Error::MismatchedPlanVectors);
        }
        let found = self.providers.get(caller);
        if found.is_none() {
            return Err(Error::NotRegistered);
        }
        let mut provider = found.unwrap();
        let mut plans = match build_plans(
            &durations,
            &active_session_limits,
            &prices,
            &max_refund_percent_policies,
        ) {
            Ok(plans) => plans,
            Err(e) => {
                return Err(e);
            },
        };
        let ghost old_plans = provider.plans@;
        let ghost new_plans = plans@;
        provider.plans.append(&mut plans);
        proof {
            assert forall|i: int| 0 <= i < provider.plans@.len() implies (
            #[trigger] provider.plans@[i]).valid() by {
                if i < old_plans.len() {
                    assert(provider.plans@[i] == before.provider_map()[*caller].plans[i]);
                } else {
                    assert(provider.plans@[i] == new_plans[i - old_plans.len()]);
                }
            }
        }
        self.providers.insert(caller, &provider);
        proof {
            lemma_catalog_commit(before, *self, *caller, provider@);
        }
        Ok(())
    }

    /// Why a change to a plan is rejected, if it is. The reasons are tried in
    /// this order: a caller that is no provider, an index that names no plan, a
    /// refund policy above 1000 permille.
    pub open spec fn edit_plan_error(
        self,
        caller: AccountId,
        plan_index: u128,
        max_refund_percent_policy: u128,
    ) -> Option<Error> {
        if !self.provider_map().contains_key(caller) {
            Some(Error::NotRegistered)
        } else if plan_index >= self.plans(caller).len() {
            Some(Error::InvalidPlanIndex)
        } else if max_refund_percent_policy > 1000 {
            Some(Error::InvalidRefundPolicy)
        } else {
            None
        }
    }

    /// Replaces the terms of plan `plan_index` of `caller`. Subscriptions that
    /// were bought before keep the terms they were bought with.
    pub fn edit_plan(
        &mut self,
        caller: &AccountId,
        plan_index: u128,
        duration: u64,
        active_session_limit: u128,
        price: u128,
        max_refund_percent_policy: u128,
        disabled: bool,
    ) -> (done: Result<(), Error>)
        requires
            old(self).wf(),
        ensures
            final(self).wf(),
            match done {
                Ok(_) => {
                    &&& old(self).edit_plan_error(*caller, plan_index, max_refund_percent_policy)
                        is None
                    &&& final(self).plans_replaced(
                        *old(self),
                        *caller,
                        old(self).plans(*caller).update(
                            plan_index as int,
                            PlanConsts {
                                duration,
                                active_session_limit,
                                price,
                                max_refund_percent_policy,
                                disabled,
                            },
                        ),
                    )
                },
                Err(e) => {
                    &&& old(self).edit_plan_error(*caller, plan_index, max_refund_percent_policy)
                        == Some(e)
                    &&& *final(self) == *old(self)
                },
            },
    {
        let ghost before = *self;
        let found = self.providers.get(caller);
        if found.is_none() {
            return Err(Error::NotRegistered);
        }
        let mut provider = found.unwrap();
        if plan_index >= provider.plans.len() as u128 {
            return Err(Error::InvalidPlanIndex);
        }
        if max_refund_percent_policy > 1000 {
            return Err(Error::InvalidRefundPolicy);
        }
        let number = plan_index as usize;
        let ghost old_plans = provider.plans@;
        provider.plans.set(
            number,
            PlanConsts { duration, active_session_limit, price, max_refund_percent_policy, disabled },
        );
        proof {
            assert forall|i: int| 0 <= i < provider.plans@.len() implies (
            #[trigger] provider.plans@[i]).valid() by {
                if i != number {
                    assert(provider.plans@[i] == before.provider_map()[*caller].plans[i]);
                }
            }
        }
        self.providers.insert(caller, &provider);
        proof {
            lemma_catalog_commit(before, *self, *caller, provider@);
        }
        Ok(())
    }

    /// Why a plan cannot be switched, if it cannot. The reasons are tried in
    /// this order: a caller that is no provider, an index that names no plan.
    pub open spec fn change_disable_error(self, caller: AccountId, plan_index: u128) -> Option<
        Error,
    > {
        if !self.provider_map().contains_key(caller) {
            Some(Error::NotRegistered)
        } else if plan_index >= self.plans(caller).len() {
            Some(Error::InvalidPlanIndex)
        } else {
            None
        }
    }

    /// Switches plan `plan_index` of `caller` from enabled to disabled or back.
    pub fn change_disable(&mut self, caller: &AccountId, plan_index: u128) -> (done: Result<
        (),
        Error,
    >)
        requires
            old(self).wf(),
        ensures
            final(self).wf(),
            match done {
                Ok(_) => {
                    &&& old(self).change_disable_error(*caller, plan_index) is None
                    &&& final(self).plans_replaced(
                        *old(self),
                        *caller,
                        old(self).plans(*caller).update(
                            plan_index as int,
                            PlanConsts {
                                disabled: !old(self).plans(*caller)[plan_index as int].disabled,
                                ..old(self).plans(*caller)[plan_index as int]
                            },
                        ),
                    )
                },
                Err(e) => {
                    &&& old(self).change_disable_error(*caller, plan_index) == Some(e)
                    &&& *final(self) == *old(self)
                },
            },
    {
        let ghost before = *self;
        let found = self.providers.get(caller);
        if found.is_none() {
            return Err(Error::NotRegistered);
        }
        let mut provider = found.unwrap();
        if plan_index >= provider.plans.len() as u128 {
            return Err(Error::InvalidPlanIndex);
        }
        let number = plan_index as usize;
        let mut plan = provider.plans[number];
        assert(plan == before.provider_map()[*caller].plans[number as int]);
        plan.disabled = !plan.disabled;
        provider.plans.set(number, plan);
        proof {
            assert forall|i: int| 0 <= i < provider.plans@.len() implies (
            #[trigger] provider.plans@[i]).valid() by {
                assert(before.provider_map()[*caller].plans[i].valid());
            }
        }
        self.providers.insert(caller, &provider);
        proof {
            lemma_catalog_commit(before, *self, *caller, provider@);
        }
        Ok(())
    }
}

} // verus!
