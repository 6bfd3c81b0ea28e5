//! The escrow chains: locking an amount for a day, taking an amount back, and
//! releasing what has matured.

use vstd::prelude::*;
use crate::account::AccountId;
use crate::error::Error;
use crate::ledger::{
    amount_on, holds_day, lemma_amount_at, lemma_amount_within_sum, lemma_days_spread,
    lemma_deposit_existing, lemma_deposit_new, lemma_release_prefix, lemma_sum_step,
    lemma_withdrawal_at, locked_sum, matured_count, matured_sum, sorted, unreleased, with_deposit,
    with_withdrawal, Bucket,
};
use crate::record::{DailyLockedAmount, LinkedList, ProviderView};
use crate::state::{chain_ok, lemma_chain_frame, schedule_of, Subscrypt};
use crate::store::{bucket_entries, BucketTable};

verus! {

/// The keys of `provider` in `buckets` are days of `days`.
#[verifier::opaque]
pub open spec fn keys_within(
    buckets: Map<(AccountId, u64), DailyLockedAmount>,
    provider: AccountId,
    days: Seq<u64>,
) -> bool {
    forall|d: u64| #[trigger] buckets.contains_key((provider, d)) ==> days.contains(d)
}

/// `after` is `before` but for the buckets of `provider`.
#[verifier::opaque]
pub open spec fn others_kept(
    before: Map<(AccountId, u64), DailyLockedAmount>,
    after: Map<(AccountId, u64), DailyLockedAmount>,
    provider: AccountId,
) -> bool {
    forall|q: AccountId, d: u64|
        q != provider ==> (#[trigger] after.contains_key((q, d)) == before.contains_key((q, d)))
            && after[(q, d)] == before[(q, d)]
}

impl Subscrypt {
    /// The providers of `self` are those of `before`, with their plans and
    /// destinations; the escrow of every provider but `provider` is as it was.
    pub open spec fn escrow_moved(self, before: Subscrypt, provider: AccountId) -> bool {
        &&& self.start_time == before.start_time
        &&& self.provider_register_fee == before.provider_register_fee
        &&& self.same_names(before)
        &&& self.provider_map().dom() == before.provider_map().dom()
        &&& forall|q: AccountId|
            q != provider ==> #[trigger] self.provider_map()[q] == before.provider_map()[q]
        &&& self.provider_map()[provider].plans == before.provider_map()[provider].plans
        &&& self.provider_map()[provider].money_address == before.provider_map()[
            provider
        ].money_address
        &&& forall|q: AccountId| q != provider ==> #[trigger] self.schedule(q) == before.schedule(q)
    }

    /// `self` is `before` but for the escrow of `provider`.
    pub open spec fn differs_in_escrow_of(self, before: Subscrypt, provider: AccountId) -> bool {
        &&& self.escrow_moved(before, provider)
        &&& self.users == before.users
        &&& self.records == before.records
        &&& self.plan_index_to_record_index == before.plan_index_to_record_index
    }
}

/// A change to the chain of one provider that leaves a chain leaves the state
/// well formed and touches nothing else.
pub proof fn lemma_escrow_commit(
    before: Subscrypt,
    after: Subscrypt,
    provider: AccountId,
    list: LinkedList,
    days: Seq<u64>,
)
    requires
        before.wf(),
        before.provider_map().contains_key(provider),
        after.start_time == before.start_time,
        after.provider_register_fee == before.provider_register_fee,
        after.users == before.users,
        after.records == before.records,
        after.plan_index_to_record_index == before.plan_index_to_record_index,
        after.same_names(before),
        after.provider_map() == before.provider_map().insert(
            provider,
            ProviderView { payment_manager: list, ..before.provider_map()[provider] },
        ),
        after.chains@ == before.chains@.insert(provider, days),
        others_kept(before.bucket_map(), after.bucket_map(), provider),
        after.bucket_map().dom().finite(),
        chain_ok(after.bucket_map(), provider, list, days),
        keys_within(after.bucket_map(), provider, days),
    ensures
        after.wf(),
        after.differs_in_escrow_of(before, provider),
{
    reveal(chain_ok);
    reveal(keys_within);
    reveal(others_kept);
    let m = before.bucket_map();
    let m2 = after.bucket_map();
    assert(after.provider_map().dom() =~= before.provider_map().dom());
    assert forall|q: AccountId| #[trigger] after.provider_map().contains_key(q) implies chain_ok(
        m2,
        q,
        after.provider_map()[q].payment_manager,
        after.days(q),
    ) by {
        if q != provider {
            assert(before.provider_map().contains_key(q));
            assert forall|d: u64| #[trigger] m.contains_key((q, d)) implies m2.contains_key((q, d))
                && m2[(q, d)] == m[(q, d)] by {
                assert(m2.contains_key((q, d)) == m.contains_key((q, d)));
            }
            lemma_chain_frame(m, m2, q, before.provider_map()[q].payment_manager, before.days(q));
        }
    }
    assert forall|q: AccountId, d: u64| #[trigger] m2.contains_key((q, d)) implies after.provider_map().contains_key(
        q,
    ) && after.days(q).contains(d) by {
        if q != provider {
            assert(m2.contains_key((q, d)) == m.contains_key((q, d)));
            assert(m.contains_key((q, d)));
        }
    }
    assert forall|q: AccountId| q != provider implies #[trigger] after.schedule(q)
        == before.schedule(q) by {
        assert forall|d: u64| m2[(q, d)] == m[(q, d)] by {
            assert(m2.contains_key((q, d)) == m.contains_key((q, d)));
        }
        assert(after.schedule(q) =~= before.schedule(q));
    }
}

/// The first bucket of an empty chain.
proof fn lemma_insert_first(
    m: Map<(AccountId, u64), DailyLockedAmount>,
    p: AccountId,
    l: LinkedList,
    days: Seq<u64>,
    day: u64,
    amount: u128,
)
    requires
        chain_ok(m, p, l, days),
        keys_within(m, p, days),
        l.length == 0,
    ensures
        ({
            let m2 = m.insert((p, day), DailyLockedAmount { amount, next_day: day });
            let l2 = LinkedList { head: day, back: day, length: 1, locked: amount };
            &&& chain_ok(m2, p, l2, seq![day])
            &&& keys_within(m2, p, seq![day])
            &&& others_kept(m, m2, p)
            &&& l.locked == 0
            &&& schedule_of(m2, p, seq![day]) == with_deposit(
                schedule_of(m, p, days),
                day,
                amount as nat,
            )
        }),
{
    reveal(chain_ok);
    reveal(keys_within);
    reveal(others_kept);
    let m2 = m.insert((p, day), DailyLockedAmount { amount, next_day: day });
    let s2 = schedule_of(m2, p, seq![day]);
    assert(schedule_of(m, p, days) =~= Seq::<Bucket>::empty());
    assert(s2 =~= seq![Bucket { day, amount: amount as nat }]);
    assert(s2.drop_last() =~= Seq::<Bucket>::empty());
    assert(locked_sum(s2) == amount);
    assert forall|d: u64| #[trigger] m2.contains_key((p, d)) implies seq![day].contains(d) by {
        if d != day {
            assert(m.contains_key((p, d)));
            assert(days.contains(d));
        }
        assert(seq![day][0] == day);
    }
}

/// What the buckets of a chain are after a new day went to place `k`: the new
/// bucket names the day that was at place `k`, or itself at the end, and the
/// bucket before it names the new day.
pub open spec fn spliced(
    m: Map<(AccountId, u64), DailyLockedAmount>,
    p: AccountId,
    days: Seq<u64>,
    day: u64,
    amount: u128,
    k: int,
) -> Map<(AccountId, u64), DailyLockedAmount> {
    let next = if k < days.len() {
        days[k]
    } else {
        day
    };
    let with_new = m.insert((p, day), DailyLockedAmount { amount, next_day: next });
    if k > 0 {
        with_new.insert(
            (p, days[k - 1]),
            DailyLockedAmount { amount: m[(p, days[k - 1])].amount, next_day: day },
        )
    } else {
        with_new
    }
}

/// The buckets of the old days after a splice: the one before the new day
/// names the new day, the others are as they were.
proof fn lemma_spliced_values(
    m: Map<(AccountId, u64), DailyLockedAmount>,
    p: AccountId,
    l: LinkedList,
    days: Seq<u64>,
    day: u64,
    amount: u128,
    k: int,
)
    requires
        chain_ok(m, p, l, days),
        0 <= k <= days.len(),
        forall|j: int| 0 <= j < k ==> days[j] < day,
        forall|j: int| k <= j < days.len() ==> days[j] > day,
    ensures
        ({
            let m2 = spliced(m, p, days, day, amount, k);
            &&& m2.contains_key((p, day))
            &&& m2[(p, day)].amount == amount
            &&& m2[(p, day)].next_day == (if k < days.len() {
                days[k]
            } else {
                day
            })
            &&& forall|i: int|
                0 <= i < days.len() ==> m2.contains_key((p, #[trigger] days[i])) && m2[(
                    p,
                    days[i],
                )].amount == m[(p, days[i])].amount && m2[(p, days[i])].next_day == (if i == k - 1 {
                    day
                } else {
                    m[(p, days[i])].next_day
                })
            &&& forall|d: u64| #[trigger]
                m2.contains_key((p, d)) ==> d == day || m.contains_key((p, d))
        }),
{
    reveal(chain_ok);
    let m2 = spliced(m, p, days, day, amount, k);
    assert forall|i: int| 0 <= i < days.len() implies m2.contains_key((p, #[trigger] days[i]))
        && m2[(p, days[i])].amount == m[(p, days[i])].amount && m2[(p, days[i])].next_day == (if i
        == k - 1 {
        day
    } else {
        m[(p, days[i])].next_day
    }) by {
        assert(m.contains_key((p, days[i])));
        assert(days[i] != day);
        if k > 0 && i != k - 1 {
            assert(days[i] != days[k - 1]);
        }
    }
}

/// A splice leaves the buckets of the other providers as they were.
proof fn lemma_spliced_others(
    m: Map<(AccountId, u64), DailyLockedAmount>,
    p: AccountId,
    days: Seq<u64>,
    day: u64,
    amount: u128,
    k: int,
)
    ensures
        others_kept(m, spliced(m, p, days, day, amount, k), p),
{
    reveal(others_kept);
    let m2 = spliced(m, p, days, day, amount, k);
    assert forall|q: AccountId, d: u64| q != p implies (#[trigger] m2.contains_key((q, d))
        == m.contains_key((q, d))) && m2[(q, d)] == m[(q, d)] by {
        assert((q, d) != (p, day));
        if k > 0 {
            assert((q, d) != (p, days[k - 1]));
        }
    }
}

/// The days after a new day went to place `k`.
proof fn lemma_days_inserted(days: Seq<u64>, day: u64, k: int)
    requires
        0 <= k <= days.len(),
    ensures
        days.insert(k, day).len() == days.len() + 1,
        forall|i: int|
            0 <= i < days.len() + 1 ==> #[trigger] days.insert(k, day)[i] == (if i < k {
                days[i]
            } else if i == k {
                day
            } else {
                days[i - 1]
            }),
{
}

/// The schedule after a splice is the old one with the new bucket at place `k`.
proof fn lemma_spliced_schedule(
    m: Map<(AccountId, u64), DailyLockedAmount>,
    p: AccountId,
    l: LinkedList,
    days: Seq<u64>,
    day: u64,
    amount: u128,
    k: int,
)
    requires
        chain_ok(m, p, l, days),
        0 <= k <= days.len(),
        forall|j: int| 0 <= j < k ==> days[j] < day,
        forall|j: int| k <= j < days.len() ==> days[j] > day,
    ensures
        schedule_of(spliced(m, p, days, day, amount, k), p, days.insert(k, day)) == schedule_of(
            m,
            p,
            days,
        ).insert(k, Bucket { day, amount: amount as nat }),
{
    let m2 = spliced(m, p, days, day, amount, k);
    let days2 = days.insert(k, day);
    let s = schedule_of(m, p, days);
    let s2 = schedule_of(m2, p, days2);
    let b = Bucket { day, amount: amount as nat };
    lemma_spliced_values(m, p, l, days, day, amount, k);
    lemma_days_inserted(days, day, k);
    assert(s2.len() == s.insert(k, b).len());
    assert forall|i: int| 0 <= i < s2.len() implies s2[i] == s.insert(k, b)[i] by {
        if i < k {
            assert(days2[i] == days[i]);
            assert(m2[(p, days[i])].amount == m[(p, days[i])].amount);
        } else if i > k {
            assert(days2[i] == days[i - 1]);
            assert(m2[(p, days[i - 1])].amount == m[(p, days[i - 1])].amount);
        } else {
            assert(days2[i] == day);
        }
    }
    assert(s2 =~= s.insert(k, b));
}

/// The buckets after a splice link the days with the new day at place `k`.
proof fn lemma_spliced_links(
    m: Map<(AccountId, u64), DailyLockedAmount>,
    p: AccountId,
    l: LinkedList,
    days: Seq<u64>,
    day: u64,
    amount: u128,
    k: int,
)
    requires
        chain_ok(m, p, l, days),
        days.len() > 0,
        0 <= k <= days.len(),
        forall|j: int| 0 <= j < k ==> days[j] < day,
        forall|j: int| k <= j < days.len() ==> days[j] > day,
    ensures
        ({
            let m2 = spliced(m, p, days, day, amount, k);
            let days2 = days.insert(k, day);
            &&& forall|i: int, j: int| 0 <= i < j < days2.len() ==> days2[i] < days2[j]
            &&& forall|i: int| 0 <= i < days2.len() ==> m2.contains_key((p, #[trigger] days2[i]))
            &&& forall|i: int|
                0 <= i < days2.len() - 1 ==> m2[(p, #[trigger] days2[i])].next_day == days2[i + 1]
            &&& m2[(p, days2[days2.len() - 1])].next_day == days2[days2.len() - 1]
        }),
{
    let m2 = spliced(m, p, days, day, amount, k);
    let days2 = days.insert(k, day);
    lemma_spliced_values(m, p, l, days, day, amount, k);
    lemma_days_inserted(days, day, k);
    assert(forall|i: int, j: int| 0 <= i < j < days.len() ==> days[i] < days[j]) by {
        reveal(chain_ok);
    }
    assert(forall|i: int|
        0 <= i < days.len() - 1 ==> m[(p, #[trigger] days[i])].next_day == days[i + 1]) by {
        reveal(chain_ok);
    }
    assert(m[(p, days[days.len() - 1])].next_day == days[days.len() - 1]) by {
        reveal(chain_ok);
    }
    assert forall|i: int, j: int| 0 <= i < j < days2.len() implies days2[i] < days2[j] by {
        let a = if i < k {
            days[i]
        } else if i == k {
            day
        } else {
            days[i - 1]
        };
        let b = if j < k {
            days[j]
        } else if j == k {
            day
        } else {
            days[j - 1]
        };
        assert(days2[i] == a);
        assert(days2[j] == b);
    }
    assert forall|i: int| 0 <= i < days2.len() implies m2.contains_key(
        (p, #[trigger] days2[i]),
    ) by {
        if i < k {
            assert(days2[i] == days[i]);
        } else if i > k {
            assert(days2[i] == days[i - 1]);
        }
    }
    assert forall|i: int| 0 <= i < days2.len() - 1 implies m2[(p, #[trigger] days2[i])].next_day
        == days2[i + 1] by {
        if i < k - 1 {
            assert(days2[i] == days[i]);
            assert(days2[i + 1] == days[i + 1]);
            assert(m2[(p, days[i])].next_day == m[(p, days[i])].next_day);
        } else if i == k - 1 {
            assert(days2[i] == days[i]);
            assert(days2[i + 1] == day);
            assert(m2[(p, days[i])].next_day == day);
        } else if i == k {
            assert(days2[i] == day);
            assert(days2[i + 1] == days[k]);
        } else {
            assert(days2[i] == days[i - 1]);
            assert(days2[i + 1] == days[i]);
            assert(m2[(p, days[i - 1])].next_day == m[(p, days[i - 1])].next_day);
        }
    }
    if k == days.len() {
        assert(days2[days2.len() - 1] == day);
    } else {
        assert(days2[days2.len() - 1] == days[days.len() - 1]);
        assert(m2[(p, days[days.len() - 1])].next_day == m[(p, days[days.len() - 1])].next_day);
    }
}

/// The keys of the provider after a splice are days of the new chain.
proof fn lemma_spliced_keys(
    m: Map<(AccountId, u64), DailyLockedAmount>,
    p: AccountId,
    l: LinkedList,
    days: Seq<u64>,
    day: u64,
    amount: u128,
    k: int,
)
    requires
        chain_ok(m, p, l, days),
        keys_within(m, p, days),
        0 <= k <= days.len(),
        forall|j: int| 0 <= j < k ==> days[j] < day,
        forall|j: int| k <= j < days.len() ==> days[j] > day,
    ensures
        keys_within(spliced(m, p, days, day, amount, k), p, days.insert(k, day)),
{
    reveal(keys_within);
    let m2 = spliced(m, p, days, day, amount, k);
    let days2 = days.insert(k, day);
    lemma_spliced_values(m, p, l, days, day, amount, k);
    lemma_days_inserted(days, day, k);
    assert forall|d: u64| #[trigger] m2.contains_key((p, d)) implies days2.contains(d) by {
        if d == day {
            assert(days2[k] == day);
        } else {
            assert(m.contains_key((p, d)));
            assert(days.contains(d));
            let i = choose|i: int| 0 <= i < days.len() && days[i] == d;
            if i < k {
                assert(days2[i] == d);
            } else {
                assert(days2[i + 1] == d);
            }
        }
    }
}

/// A new bucket in a chain that has buckets, at place `k` of the days.
proof fn lemma_insert_new(
    m: Map<(AccountId, u64), DailyLockedAmount>,
    p: AccountId,
    l: LinkedList,
    days: Seq<u64>,
    day: u64,
    amount: u128,
    k: int,
)
    requires
        chain_ok(m, p, l, days),
        keys_within(m, p, days),
        days.len() > 0,
        0 <= k <= days.len(),
        forall|j: int| 0 <= j < k ==> days[j] < day,
        forall|j: int| k <= j < days.len() ==> days[j] > day,
        l.locked + amount <= u128::MAX,
        l.length + 1 <= u128::MAX,
    ensures
        ({
            let m2 = spliced(m, p, days, day, amount, k);
            let l2 = LinkedList {
                head: if k == 0 {
                    day
                } else {
                    l.head
                },
                back: if k == days.len() {
                    day
                } else {
                    l.back
                },
                length: (l.length + 1) as u128,
                locked: (l.locked + amount) as u128,
            };
            &&& chain_ok(m2, p, l2, days.insert(k, day))
            &&& keys_within(m2, p, days.insert(k, day))
            &&& others_kept(m, m2, p)
            &&& schedule_of(m2, p, days.insert(k, day)) == with_deposit(
                schedule_of(m, p, days),
                day,
                amount as nat,
            )
        }),
{
    let m2 = spliced(m, p, days, day, amount, k);
    let days2 = days.insert(k, day);
    let s = schedule_of(m, p, days);
    lemma_spliced_others(m, p, days, day, amount, k);
    lemma_spliced_keys(m, p, l, days, day, amount, k);
    lemma_spliced_schedule(m, p, l, days, day, amount, k);
    lemma_spliced_links(m, p, l, days, day, amount, k);
    lemma_chain_facts(m, p, l, days);
    lemma_days_inserted(days, day, k);
    assert forall|i: int, j: int| 0 <= i < j < s.len() implies s[i].day < s[j].day by {}
    lemma_deposit_new(s, day, amount as nat, k);
    assert(days2[0] == if k == 0 {
        day
    } else {
        days[0]
    });
    assert(days2[days2.len() - 1] == if k == days.len() {
        day
    } else {
        days[days.len() - 1]
    });
    reveal(chain_ok);
}

/// More for a day that has a bucket, at place `k` of the days.
proof fn lemma_insert_existing(
    m: Map<(AccountId, u64), DailyLockedAmount>,
    p: AccountId,
    l: LinkedList,
    days: Seq<u64>,
    amount: u128,
    k: int,
)
    requires
        chain_ok(m, p, l, days),
        keys_within(m, p, days),
        0 <= k < days.len(),
        l.locked + amount <= u128::MAX,
    ensures
        m[(p, days[k])].amount + amount <= u128::MAX,
        ({
            let old = m[(p, days[k])];
            let m2 = m.insert(
                (p, days[k]),
                DailyLockedAmount { amount: (old.amount + amount) as u128, next_day: old.next_day },
            );
            let l2 = LinkedList { locked: (l.locked + amount) as u128, ..l };
            &&& chain_ok(m2, p, l2, days)
            &&& keys_within(m2, p, days)
            &&& others_kept(m, m2, p)
            &&& schedule_of(m2, p, days) == with_deposit(
                schedule_of(m, p, days),
                days[k],
                amount as nat,
            )
        }),
{
    reveal(chain_ok);
    reveal(keys_within);
    reveal(others_kept);
    let old = m[(p, days[k])];
    let m2 = m.insert(
        (p, days[k]),
        DailyLockedAmount { amount: (old.amount + amount) as u128, next_day: old.next_day },
    );
    let s = schedule_of(m, p, days);
    let s2 = schedule_of(m2, p, days);
    lemma_amount_within_sum(s, k);
    assert forall|i: int, j: int| 0 <= i < j < s.len() implies s[i].day < s[j].day by {}
    lemma_deposit_existing(s, days[k], amount as nat, k);
    assert(s2 =~= s.update(k, Bucket { day: days[k], amount: s[k].amount + amount as nat }));
    assert forall|d: u64| #[trigger] m2.contains_key((p, d)) implies days.contains(d) by {
        if d != days[k] {
            assert(m.contains_key((p, d)));
        }
    }
}

/// Less for a day that has a bucket, at place `k` of the days.
proof fn lemma_remove_at(
    m: Map<(AccountId, u64), DailyLockedAmount>,
    p: AccountId,
    l: LinkedList,
    days: Seq<u64>,
    amount: u128,
    k: int,
)
    requires
        chain_ok(m, p, l, days),
        keys_within(m, p, days),
        0 <= k < days.len(),
        amount <= m[(p, days[k])].amount,
    ensures
        amount <= l.locked,
        ({
            let old = m[(p, days[k])];
            let m2 = m.insert(
                (p, days[k]),
                DailyLockedAmount { amount: (old.amount - amount) as u128, next_day: old.next_day },
            );
            let l2 = LinkedList { locked: (l.locked - amount) as u128, ..l };
            &&& chain_ok(m2, p, l2, days)
            &&& keys_within(m2, p, days)
            &&& others_kept(m, m2, p)
            &&& schedule_of(m2, p, days) == with_withdrawal(
                schedule_of(m, p, days),
                days[k],
                amount as nat,
            )
        }),
{
    reveal(chain_ok);
    reveal(keys_within);
    reveal(others_kept);
    let old = m[(p, days[k])];
    let m2 = m.insert(
        (p, days[k]),
        DailyLockedAmount { amount: (old.amount - amount) as u128, next_day: old.next_day },
    );
    let s = schedule_of(m, p, days);
    let s2 = schedule_of(m2, p, days);
    assert forall|i: int, j: int| 0 <= i < j < s.len() implies s[i].day < s[j].day by {}
    lemma_withdrawal_at(s, days[k], amount as nat, k);
    assert(s2 =~= s.update(
        k,
        Bucket { day: days[k], amount: (s[k].amount - amount as nat) as nat },
    ));
    assert forall|d: u64| #[trigger] m2.contains_key((p, d)) implies days.contains(d) by {
        if d != days[k] {
            assert(m.contains_key((p, d)));
        }
    }
}

/// What a chain says of its description and its days.
proof fn lemma_chain_facts(
    m: Map<(AccountId, u64), DailyLockedAmount>,
    p: AccountId,
    l: LinkedList,
    days: Seq<u64>,
)
    requires
        chain_ok(m, p, l, days),
    ensures
        days.len() == l.length,
        l.length <= u64::MAX + 1,
        forall|i: int, j: int| 0 <= i < j < days.len() ==> days[i] < days[j],
        days.len() > 0 ==> l.head == days[0] && l.back == days[days.len() - 1] && m.contains_key(
            (p, l.back),
        ) && m.contains_key((p, l.head)),
        l.locked == locked_sum(schedule_of(m, p, days)),
{
    reveal(chain_ok);
    if days.len() > 0 {
        let s = schedule_of(m, p, days);
        assert forall|i: int, j: int| 0 <= i < j < s.len() implies s[i].day < s[j].day by {}
        lemma_days_spread(s, days.len() - 1);
        assert(m.contains_key((p, days[0])));
        assert(m.contains_key((p, days[days.len() - 1])));
    }
}

/// Walks the chain of `provider` to the last bucket whose day is at or before
/// `day_id`, and gives its day, the bucket and its place.
fn locate(
    table: &BucketTable,
    provider: &AccountId,
    list: LinkedList,
    day_id: u64,
    Ghost(days): Ghost<Seq<u64>>,
) -> (at: (u64, DailyLockedAmount, Ghost<int>))
    requires
        chain_ok(bucket_entries(*table), *provider, list, days),
        list.length > 0,
        list.head <= day_id <= list.back,
    ensures
        0 <= at.2@ < days.len(),
        days[at.2@] == at.0,
        at.1 == bucket_entries(*table)[(*provider, at.0)],
        at.0 <= day_id,
        at.2@ + 1 < days.len() ==> days[at.2@ + 1] > day_id && at.1.next_day == days[at.2@ + 1],
        bucket_entries(*table).contains_key((*provider, at.0)),
{
    let mut cur: u64 = list.head;
    let ghost mut k: int = 0;
    proof {
        reveal(chain_ok);
        assert(bucket_entries(*table).contains_key((*provider, days[0])));
    }
    let mut bucket = table.get(provider, cur).unwrap();
    while cur != day_id && bucket.next_day <= day_id
        invariant
            chain_ok(bucket_entries(*table), *provider, list, days),
            day_id <= list.back,
            0 <= k < days.len(),
            days[k] == cur,
            cur <= day_id,
            bucket == bucket_entries(*table)[(*provider, cur)],
        decreases days.len() - k,
    {
        proof {
            reveal(chain_ok);
            assert(k < days.len() - 1);
            assert(bucket_entries(*table).contains_key((*provider, days[k + 1])));
        }
        cur = bucket.next_day;
        proof {
            k = k + 1;
        }
        bucket = table.get(provider, cur).unwrap();
    }
    (cur, bucket, Ghost(k))
}

/// Links `amount` for `day_id` into the chain of `provider`, and gives the
/// chain's new description and days.
fn link(
    table: &mut BucketTable,
    provider: &AccountId,
    list: LinkedList,
    day_id: u64,
    amount: u128,
    Ghost(days): Ghost<Seq<u64>>,
) -> (linked: (LinkedList, Ghost<Seq<u64>>))
    requires
        chain_ok(bucket_entries(*old(table)), *provider, list, days),
        keys_within(bucket_entries(*old(table)), *provider, days),
        bucket_entries(*old(table)).dom().finite(),
        bucket_entries(*old(table)).contains_key((*provider, day_id)) || bucket_entries(
            *old(table),
        ).dom().len() < u32::MAX,
        list.locked + amount <= u128::MAX,
    ensures
        chain_ok(bucket_entries(*final(table)), *provider, linked.0, linked.1@),
        keys_within(bucket_entries(*final(table)), *provider, linked.1@),
        others_kept(bucket_entries(*old(table)), bucket_entries(*final(table)), *provider),
        bucket_entries(*final(table)).dom().finite(),
        schedule_of(bucket_entries(*final(table)), *provider, linked.1@) == with_deposit(
            schedule_of(bucket_entries(*old(table)), *provider, days),
            day_id,
            amount as nat,
        ),
{
    let ghost m = bucket_entries(*table);
    let ghost new_days: Seq<u64>;
    let mut next = list;
    next.locked = list.locked + amount;
    proof {
        lemma_chain_facts(m, *provider, list, days);
    }
    if list.length == 0 {
        table.insert(provider, day_id, DailyLockedAmount { amount, next_day: day_id });
        next.head = day_id;
        next.back = day_id;
        next.length = 1;
        proof {
            new_days = seq![day_id];
            lemma_insert_first(m, *provider, list, days, day_id, amount);
        }
    } else if day_id < list.head {
        table.insert(provider, day_id, DailyLockedAmount { amount, next_day: list.head });
        next.head = day_id;
        next.length = list.length + 1;
        proof {
            new_days = days.insert(0, day_id);
            lemma_insert_new(m, *provider, list, days, day_id, amount, 0);
        }
    } else if day_id > list.back {
        let last = table.get(provider, list.back).unwrap();
        table.insert(provider, day_id, DailyLockedAmount { amount, next_day: day_id });
        table.insert(provider, list.back, DailyLockedAmount { amount: last.amount, next_day: day_id });
        next.back = day_id;
        next.length = list.length + 1;
        proof {
            new_days = days.insert(days.len() as int, day_id);
            lemma_insert_new(m, *provider, list, days, day_id, amount, days.len() as int);
        }
    } else {
        let at = locate(table, provider, list, day_id, Ghost(days));
        let cur = at.0;
        let bucket = at.1;
        let ghost k = at.2@;
        if cur == day_id {
            proof {
                new_days = days;
                lemma_insert_existing(m, *provider, list, days, amount, k);
            }
            table.insert(
                provider,
                cur,
                DailyLockedAmount { amount: bucket.amount + amount, next_day: bucket.next_day },
            );
        } else {
            table.insert(provider, day_id, DailyLockedAmount { amount, next_day: bucket.next_day });
            table.insert(provider, cur, DailyLockedAmount { amount: bucket.amount, next_day: day_id });
            next.length = list.length + 1;
            proof {
                new_days = days.insert(k + 1, day_id);
                lemma_insert_new(m, *provider, list, days, day_id, amount, k + 1);
            }
        }
    }
    (next, Ghost(new_days))
}

/// The head of a chain after a release up to `cutoff`: the day of the first
/// bucket that stays; where none stays, the day of the last bucket; where there
/// was none, the head as it was.
pub open spec fn head_after(s: Seq<Bucket>, cutoff: u64, head: u64) -> u64 {
    if matured_count(s, cutoff) < s.len() {
        s[matured_count(s, cutoff) as int].day
    } else if s.len() > 0 {
        s.last().day
    } else {
        head
    }
}

/// What a walk along the chain finds at place `k`: the bucket is there, names
/// the next day, or itself at the end, and fits into the sum.
proof fn lemma_chain_look(
    m: Map<(AccountId, u64), DailyLockedAmount>,
    p: AccountId,
    l: LinkedList,
    days: Seq<u64>,
    k: int,
)
    requires
        chain_ok(m, p, l, days),
        0 <= k < days.len(),
    ensures
        m.contains_key((p, days[k])),
        k + 1 < days.len() ==> m[(p, days[k])].next_day == days[k + 1],
        k + 1 == days.len() ==> m[(p, days[k])].next_day == days[k],
        locked_sum(schedule_of(m, p, days).take(k + 1)) == locked_sum(
            schedule_of(m, p, days).take(k),
        ) + m[(p, days[k])].amount,
        locked_sum(schedule_of(m, p, days).take(k + 1)) <= l.locked,
{
    reveal(chain_ok);
    lemma_sum_step(schedule_of(m, p, days), k);
}

/// What a release up to `cutoff` would take from the chain of `provider`: the
/// sum of the buckets whose day is at or before `cutoff`, the head that the
/// chain would have, and the number of these buckets. Nothing is changed.
fn peek(
    table: &BucketTable,
    provider: &AccountId,
    list: LinkedList,
    cutoff: u64,
    Ghost(days): Ghost<Seq<u64>>,
) -> (out: (u128, u64, u128))
    requires
        chain_ok(bucket_entries(*table), *provider, list, days),
    ensures
        out.0 == matured_sum(schedule_of(bucket_entries(*table), *provider, days), cutoff),
        out.1 == head_after(
            schedule_of(bucket_entries(*table), *provider, days),
            cutoff,
            list.head,
        ),
        out.2 == matured_count(schedule_of(bucket_entries(*table), *provider, days), cutoff),
{
    let ghost m = bucket_entries(*table);
    let ghost s = schedule_of(m, *provider, days);
    let mut cur: u64 = list.head;
    let mut sum: u128 = 0;
    let mut consumed: u128 = 0;
    proof {
        lemma_chain_facts(m, *provider, list, days);
        assert(s.take(0) =~= Seq::<Bucket>::empty());
    }
    while consumed < list.length && cur <= cutoff
        invariant
            chain_ok(m, *provider, list, days),
            m == bucket_entries(*table),
            days.len() == list.length,
            s == schedule_of(m, *provider, days),
            consumed <= list.length,
            consumed < list.length ==> cur == days[consumed as int],
            consumed == 0 ==> cur == list.head,
            0 < consumed == list.length ==> cur == days[days.len() - 1],
            sum == locked_sum(s.take(consumed as int)),
            sum <= list.locked,
            forall|j: int| 0 <= j < consumed ==> days[j] <= cutoff,
        decreases list.length - consumed,
    {
        proof {
            lemma_chain_look(m, *provider, list, days, consumed as int);
        }
        let bucket = table.get(provider, cur).unwrap();
        sum = sum + bucket.amount;
        consumed = consumed + 1;
        cur = bucket.next_day;
    }
    proof {
        lemma_chain_facts(m, *provider, list, days);
        assert forall|i: int, j: int| 0 <= i < j < s.len() implies s[i].day < s[j].day by {}
        lemma_release_prefix(s, cutoff, consumed as int);
    }
    (sum, cur, consumed)
}

/// The buckets of `provider` in `now` are those of `before` without the first
/// `k` days of the chain; the buckets of the others are as they were.
#[verifier::opaque]
pub open spec fn swept(
    before: Map<(AccountId, u64), DailyLockedAmount>,
    now: Map<(AccountId, u64), DailyLockedAmount>,
    provider: AccountId,
    days: Seq<u64>,
    k: int,
) -> bool {
    &&& 0 <= k <= days.len()
    &&& forall|j: int|
        k <= j < days.len() ==> now.contains_key((provider, #[trigger] days[j])) && now[(
            provider,
            days[j],
        )] == before[(provider, days[j])]
    &&& forall|d: u64| #[trigger]
        now.contains_key((provider, d)) ==> exists|j: int|
            k <= j < days.len() && #[trigger] days[j] == d
    &&& forall|q: AccountId, d: u64|
        q != provider ==> (#[trigger] now.contains_key((q, d)) == before.contains_key((q, d)))
            && now[(q, d)] == before[(q, d)]
}

/// Nothing is swept at the start.
proof fn lemma_sweep_start(
    m: Map<(AccountId, u64), DailyLockedAmount>,
    p: AccountId,
    l: LinkedList,
    days: Seq<u64>,
)
    requires
        chain_ok(m, p, l, days),
        keys_within(m, p, days),
    ensures
        swept(m, m, p, days, 0),
{
    reveal(swept);
    reveal(chain_ok);
    reveal(keys_within);
    assert forall|d: u64| #[trigger] m.contains_key((p, d)) implies exists|j: int|
        0 <= j < days.len() && #[trigger] days[j] == d by {
        assert(days.contains(d));
    }
}

/// What the sweep finds at place `k`: the bucket is there, holds what the
/// schedule says, names the next day, and fits into the sum.
proof fn lemma_sweep_look(
    m: Map<(AccountId, u64), DailyLockedAmount>,
    now: Map<(AccountId, u64), DailyLockedAmount>,
    p: AccountId,
    l: LinkedList,
    days: Seq<u64>,
    k: int,
)
    requires
        chain_ok(m, p, l, days),
        swept(m, now, p, days, k),
        k < days.len(),
    ensures
        now.contains_key((p, days[k])),
        now[(p, days[k])] == m[(p, days[k])],
        k + 1 < days.len() ==> now[(p, days[k])].next_day == days[k + 1],
        k + 1 == days.len() ==> now[(p, days[k])].next_day == days[k],
        locked_sum(schedule_of(m, p, days).take(k + 1)) == locked_sum(
            schedule_of(m, p, days).take(k),
        ) + now[(p, days[k])].amount,
        locked_sum(schedule_of(m, p, days).take(k + 1)) <= l.locked,
{
    reveal(swept);
    reveal(chain_ok);
    lemma_sum_step(schedule_of(m, p, days), k);
}

/// One step of the sweep.
proof fn lemma_sweep_step(
    m: Map<(AccountId, u64), DailyLockedAmount>,
    now: Map<(AccountId, u64), DailyLockedAmount>,
    p: AccountId,
    l: LinkedList,
    days: Seq<u64>,
    k: int,
)
    requires
        chain_ok(m, p, l, days),
        swept(m, now, p, days, k),
        k < days.len(),
    ensures
        swept(m, now.remove((p, days[k])), p, days, k + 1),
{
    reveal(swept);
    let next = now.remove((p, days[k]));
    assert(forall|i: int, j: int| 0 <= i < j < days.len() ==> days[i] < days[j]) by {
        reveal(chain_ok);
    }
    assert forall|j: int| k + 1 <= j < days.len() implies next.contains_key(
        (p, #[trigger] days[j]),
    ) && next[(p, days[j])] == m[(p, days[j])] by {
        assert(days[k] < days[j]);
        assert(now.contains_key((p, days[j])));
    }
    assert forall|d: u64| #[trigger] next.contains_key((p, d)) implies exists|j: int|
        k + 1 <= j < days.len() && #[trigger] days[j] == d by {
        assert(now.contains_key((p, d)));
        let j = choose|j: int| k <= j < days.len() && #[trigger] days[j] == d;
        assert(j != k);
        assert(days[j] == d);
    }
    assert forall|q: AccountId, d: u64| q != p implies (#[trigger] next.contains_key((q, d))
        == m.contains_key((q, d))) && next[(q, d)] == m[(q, d)] by {
        assert((q, d) != (p, days[k]));
        assert(now.contains_key((q, d)) == m.contains_key((q, d)));
    }
}

/// After the sweep the rest of the days is a chain.
proof fn lemma_sweep_done(
    m: Map<(AccountId, u64), DailyLockedAmount>,
    now: Map<(AccountId, u64), DailyLockedAmount>,
    p: AccountId,
    l: LinkedList,
    days: Seq<u64>,
    k: int,
    head: u64,
    cutoff: u64,
)
    requires
        chain_ok(m, p, l, days),
        swept(m, now, p, days, k),
        forall|j: int| 0 <= j < k ==> days[j] <= cutoff,
        k < days.len() ==> days[k] > cutoff && head == days[k],
    ensures
        ({
            let s = schedule_of(m, p, days);
            let l2 = LinkedList {
                head,
                back: l.back,
                length: (l.length - k) as u128,
                locked: (l.locked - matured_sum(s, cutoff)) as u128,
            };
            &&& matured_sum(s, cutoff) == locked_sum(s.take(k))
            &&& matured_sum(s, cutoff) <= l.locked
            &&& matured_count(s, cutoff) == k
            &&& k <= l.length
            &&& chain_ok(now, p, l2, days.skip(k))
            &&& keys_within(now, p, days.skip(k))
            &&& others_kept(m, now, p)
            &&& schedule_of(now, p, days.skip(k)) == unreleased(s, cutoff)
        }),
{
    reveal(swept);
    reveal(chain_ok);
    reveal(keys_within);
    reveal(others_kept);
    let s = schedule_of(m, p, days);
    let rest = days.skip(k);
    assert forall|i: int, j: int| 0 <= i < j < s.len() implies s[i].day < s[j].day by {}
    lemma_release_prefix(s, cutoff, k);
    assert(schedule_of(now, p, rest) =~= s.skip(k)) by {
        assert forall|i: int| 0 <= i < rest.len() implies schedule_of(now, p, rest)[i] == s.skip(
            k,
        )[i] by {
            assert(rest[i] == days[i + k]);
        }
    }
    assert forall|i: int| 0 <= i < rest.len() implies now.contains_key(
        (p, #[trigger] rest[i]),
    ) by {
        assert(rest[i] == days[i + k]);
    }
    assert forall|i: int| 0 <= i < rest.len() - 1 implies now[(p, #[trigger] rest[i])].next_day
        == rest[i + 1] by {
        assert(rest[i] == days[i + k]);
        assert(rest[i + 1] == days[i + k + 1]);
    }
    assert forall|d: u64| #[trigger] now.contains_key((p, d)) implies rest.contains(d) by {
        let j = choose|j: int| k <= j < days.len() && #[trigger] days[j] == d;
        assert(rest[j - k] == d);
    }
    if rest.len() > 0 {
        assert(rest[0] == days[k]);
        assert(rest[rest.len() - 1] == days[days.len() - 1]);
    }
}

/// Takes the buckets of `provider` whose day is at or before `cutoff` out of
/// the chain, and gives their sum, their number, and the chain's new
/// description and days.
fn sweep(
    table: &mut BucketTable,
    provider: &AccountId,
    list: LinkedList,
    cutoff: u64,
    Ghost(days): Ghost<Seq<u64>>,
) -> (out: (u128, u128, LinkedList, Ghost<Seq<u64>>))
    requires
        chain_ok(bucket_entries(*old(table)), *provider, list, days),
        keys_within(bucket_entries(*old(table)), *provider, days),
        bucket_entries(*old(table)).dom().finite(),
    ensures
        chain_ok(bucket_entries(*final(table)), *provider, out.2, out.3@),
        keys_within(bucket_entries(*final(table)), *provider, out.3@),
        others_kept(bucket_entries(*old(table)), bucket_entries(*final(table)), *provider),
        bucket_entries(*final(table)).dom().finite(),
        out.0 == matured_sum(schedule_of(bucket_entries(*old(table)), *provider, days), cutoff),
        out.1 == matured_count(schedule_of(bucket_entries(*old(table)), *provider, days), cutoff),
        schedule_of(bucket_entries(*final(table)), *provider, out.3@) == unreleased(
            schedule_of(bucket_entries(*old(table)), *provider, days),
            cutoff,
        ),
        out.2.back == list.back,
        out.2.head == (if out.1 < days.len() {
            days[out.1 as int]
        } else if days.len() > 0 {
            days[days.len() - 1]
        } else {
            list.head
        }),
{
    let ghost m = bucket_entries(*table);
    let ghost s = schedule_of(m, *provider, days);
    let mut cur: u64 = list.head;
    let mut sum: u128 = 0;
    let mut consumed: u128 = 0;
    proof {
        lemma_chain_facts(m, *provider, list, days);
        lemma_sweep_start(m, *provider, list, days);
        assert(s.take(0) =~= Seq::<Bucket>::empty());
    }
    while consumed < list.length && cur <= cutoff
        invariant
            chain_ok(m, *provider, list, days),
            days.len() == list.length,
            s == schedule_of(m, *provider, days),
            swept(m, bucket_entries(*table), *provider, days, consumed as int),
            bucket_entries(*table).dom().finite(),
            consumed <= list.length,
            consumed < list.length ==> cur == days[consumed as int],
            consumed == 0 ==> cur == list.head,
            0 < consumed == list.length ==> cur == days[days.len() - 1],
            sum == locked_sum(s.take(consumed as int)),
            sum <= list.locked,
            forall|j: int| 0 <= j < consumed ==> days[j] <= cutoff,
        decreases list.length - consumed,
    {
        proof {
            lemma_sweep_look(m, bucket_entries(*table), *provider, list, days, consumed as int);
            lemma_sweep_step(m, bucket_entries(*table), *provider, list, days, consumed as int);
        }
        let bucket = table.get(provider, cur).unwrap();
        sum = sum + bucket.amount;
        table.take(provider, cur);
        consumed = consumed + 1;
        cur = bucket.next_day;
    }
    let next = LinkedList {
        head: cur,
        back: list.back,
        length: list.length - consumed,
        locked: list.locked - sum,
    };
    proof {
        lemma_sweep_done(
            m,
            bucket_entries(*table),
            *provider,
            list,
            days,
            consumed as int,
            cur,
            cutoff,
        );
    }
    (sum, consumed, next, Ghost(days.skip(consumed as int)))
}

impl Subscrypt {
    /// Why locking `amount` for `day_id` in the escrow of `provider` is
    /// rejected, if it is: the provider is unknown, its escrow would exceed the
    /// largest balance, or the day needs a new bucket and the bucket table is
    /// full.
    pub open spec fn add_entry_error(self, provider: AccountId, day_id: u64, amount: u128) -> Option<
        Error,
    > {
        if !self.provider_map().contains_key(provider) {
            Some(Error::ProviderNotFound)
        } else if self.provider_map()[provider].payment_manager.locked + amount > u128::MAX {
            Some(Error::EscrowOverflow)
        } else if !holds_day(self.schedule(provider), day_id) && self.bucket_map().dom().len()
            >= u32::MAX {
            Some(Error::StorageFull)
        } else {
            None
        }
    }

    /// Locks `amount` for `day_id` in the escrow of `provider_address`: added to
    /// the day's bucket, or to a new bucket that is linked into the chain in the
    /// day's place.
    pub fn add_entry(&mut self, provider_address: &AccountId, day_id: u64, amount: u128) -> (done:
        Result<(), Error>)
        requires
            old(self).wf(),
        ensures
            final(self).wf(),
            match done {
                Ok(_) => {
                    &&& old(self).add_entry_error(*provider_address, day_id, amount) is None
                    &&& final(self).differs_in_escrow_of(*old(self), *provider_address)
                    &&& final(self).schedule(*provider_address) == with_deposit(
                        old(self).schedule(*provider_address),
                        day_id,
                        amount as nat,
                    )
                },
                Err(e) => {
                    &&& old(self).add_entry_error(*provider_address, day_id, amount) == Some(e)
                    &&& *final(self) == *old(self)
                },
            },
    {
        let ghost before = *self;
        let found = self.providers.get(provider_address);
        if found.is_none() {
            return Err(Error::ProviderNotFound);
        }
        let mut provider = found.unwrap();
        let list = provider.payment_manager;
        if amount > u128::MAX - list.locked {
            return Err(Error::EscrowOverflow);
        }
        proof {
            self.lemma_bucket_in_schedule(*provider_address, day_id);
        }
        if self.daily_locked_amounts.get(provider_address, day_id).is_none()
            && self.daily_locked_amounts.len() == u32::MAX {
            return Err(Error::StorageFull);
        }
        let ghost days = self.days(*provider_address);
        proof {
            assert(keys_within(self.bucket_map(), *provider_address, days)) by {
                reveal(keys_within);
                assert forall|d: u64| #[trigger]
                    self.bucket_map().contains_key((*provider_address, d)) implies days.contains(
                    d,
                ) by {}
            }
        }
        let linked = link(
            &mut self.daily_locked_amounts,
            provider_address,
            list,
            day_id,
            amount,
            Ghost(days),
        );
        provider.payment_manager = linked.0;
        self.providers.insert(provider_address, &provider);
        self.chains = Ghost(self.chains@.insert(*provider_address, linked.1@));
        proof {
            lemma_escrow_commit(before, *self, *provider_address, linked.0, linked.1@);
        }
        Ok(())
    }

    /// Why taking `amount` back from the bucket of `day_id` is rejected, if it
    /// is: the provider is unknown, or its schedule has no bucket for the day
    /// or holds less for it.
    pub open spec fn remove_entry_error(self, provider: AccountId, day_id: u64, amount: u128) -> Option<
        Error,
    > {
        if !self.provider_map().contains_key(provider) {
            Some(Error::ProviderNotFound)
        } else if !holds_day(self.schedule(provider), day_id) || amount_on(
            self.schedule(provider),
            day_id,
        ) < amount {
            Some(Error::EscrowMissing)
        } else {
            None
        }
    }

    /// The description of a provider's chain tells its schedule: the number of
    /// buckets, the sum that they hold, and the first and the last day.
    pub proof fn lemma_list_tells_schedule(self, provider: AccountId)
        requires
            self.wf(),
            self.provider_map().contains_key(provider),
        ensures
            sorted(self.schedule(provider)),
            self.provider_map()[provider].payment_manager.length == self.schedule(provider).len(),
            self.provider_map()[provider].payment_manager.locked == locked_sum(
                self.schedule(provider),
            ),
            self.schedule(provider).len() > 0 ==> {
                &&& self.provider_map()[provider].payment_manager.head == self.schedule(
                    provider,
                )[0].day
                &&& self.provider_map()[provider].payment_manager.back == self.schedule(
                    provider,
                ).last().day
            },
    {
        reveal(chain_ok);
        let s = self.schedule(provider);
        assert(chain_ok(
            self.bucket_map(),
            provider,
            self.provider_map()[provider].payment_manager,
            self.days(provider),
        ));
        assert forall|i: int, j: int| 0 <= i < j < s.len() implies s[i].day < s[j].day by {}
    }

    /// The schedule of a provider ascends, and holds a bucket for a day exactly
    /// where storage holds one, with the same amount.
    pub proof fn lemma_bucket_in_schedule(self, provider: AccountId, day_id: u64)
        requires
            self.wf(),
            self.provider_map().contains_key(provider),
        ensures
            sorted(self.schedule(provider)),
            self.bucket_map().contains_key((provider, day_id)) == holds_day(
                self.schedule(provider),
                day_id,
            ),
            self.bucket_map().contains_key((provider, day_id)) ==> amount_on(
                self.schedule(provider),
                day_id,
            ) == self.bucket_map()[(provider, day_id)].amount,
    {
        reveal(chain_ok);
        let days = self.days(provider);
        let s = self.schedule(provider);
        assert(chain_ok(
            self.bucket_map(),
            provider,
            self.provider_map()[provider].payment_manager,
            days,
        ));
        assert forall|i: int, j: int| 0 <= i < j < s.len() implies s[i].day < s[j].day by {}
        if self.bucket_map().contains_key((provider, day_id)) {
            assert(days.contains(day_id));
            let k = choose|k: int| 0 <= k < days.len() && days[k] == day_id;
            assert(s[k].day == day_id);
            lemma_amount_at(s, k);
        }
        if holds_day(s, day_id) {
            let k = choose|k: int| 0 <= k < s.len() && #[trigger] s[k].day == day_id;
            assert(days[k] == day_id);
            assert(self.bucket_map().contains_key((provider, days[k])));
        }
    }

    /// Takes `amount` out of the bucket of `day_id` in the escrow of
    /// `provider_address`. The bucket stays in the chain.
    pub fn remove_entry(&mut self, provider_address: &AccountId, day_id: u64, amount: u128) -> (done:
        Result<(), Error>)
        requires
            old(self).wf(),
        ensures
            final(self).wf(),
            match done {
                Ok(_) => {
                    &&& old(self).remove_entry_error(*provider_address, day_id, amount) is None
                    &&& final(self).differs_in_escrow_of(*old(self), *provider_address)
                    &&& final(self).schedule(*provider_address) == with_withdrawal(
                        old(self).schedule(*provider_address),
                        day_id,
                        amount as nat,
                    )
                },
                Err(e) => {
                    &&& old(self).remove_entry_error(*provider_address, day_id, amount) == Some(e)
                    &&& *final(self) == *old(self)
                },
            },
    {
        let ghost before = *self;
        let found = self.providers.get(provider_address);
        if found.is_none() {
            return Err(Error::ProviderNotFound);
        }
        let mut provider = found.unwrap();
        let list = provider.payment_manager;
        proof {
            self.lemma_bucket_in_schedule(*provider_address, day_id);
        }
        let held = self.daily_locked_amounts.get(provider_address, day_id);
        if held.is_none() {
            return Err(Error::EscrowMissing);
        }
        let bucket = held.unwrap();
        if bucket.amount < amount {
            return Err(Error::EscrowMissing);
        }
        let ghost days = self.days(*provider_address);
        let ghost m = self.bucket_map();
        let ghost k: int;
        proof {
            assert(days.contains(day_id));
            k = choose|k: int| 0 <= k < days.len() && days[k] == day_id;
            assert(keys_within(m, *provider_address, days)) by {
                reveal(keys_within);
                assert forall|d: u64| #[trigger]
                    m.contains_key((*provider_address, d)) implies days.contains(d) by {}
            }
            lemma_remove_at(m, *provider_address, list, days, amount, k);
        }
        self.daily_locked_amounts.insert(
            provider_address,
            day_id,
            DailyLockedAmount { amount: bucket.amount - amount, next_day: bucket.next_day },
        );
        let next = LinkedList {
            head: list.head,
            back: list.back,
            length: list.length,
            locked: list.locked - amount,
        };
        provider.payment_manager = next;
        self.providers.insert(provider_address, &provider);
        self.chains = Ghost(self.chains@.insert(*provider_address, days));
        proof {
            lemma_escrow_commit(before, *self, *provider_address, next, days);
        }
        Ok(())
    }

    /// Tells whether locking `amount` for `day_id` in the escrow of `provider`
    /// would be rejected, and why.
    pub fn add_entry_refusal(&self, provider: &AccountId, day_id: u64, amount: u128) -> (refusal:
        Option<Error>)
        requires
            self.wf(),
        ensures
            refusal == self.add_entry_error(*provider, day_id, amount),
    {
        let list = match self.providers.get(provider) {
            Some(found) => found.payment_manager,
            None => {
                return Some(Error::ProviderNotFound);
            },
        };
        if amount > u128::MAX - list.locked {
            return Some(Error::EscrowOverflow);
        }
        proof {
            self.lemma_bucket_in_schedule(*provider, day_id);
        }
        if self.daily_locked_amounts.get(provider, day_id).is_none()
            && self.daily_locked_amounts.len() == u32::MAX {
            return Some(Error::StorageFull);
        }
        None
    }

    /// Tells whether taking `amount` back from the bucket of `day_id` in the
    /// escrow of `provider` would be rejected, and why.
    pub fn remove_entry_refusal(&self, provider: &AccountId, day_id: u64, amount: u128) -> (refusal:
        Option<Error>)
        requires
            self.wf(),
        ensures
            refusal == self.remove_entry_error(*provider, day_id, amount),
    {
        if self.providers.get(provider).is_none() {
            return Some(Error::ProviderNotFound);
        }
        proof {
            self.lemma_bucket_in_schedule(*provider, day_id);
        }
        match self.daily_locked_amounts.get(provider, day_id) {
            Some(bucket) => if bucket.amount < amount {
                Some(Error::EscrowMissing)
            } else {
                None
            },
            None => Some(Error::EscrowMissing),
        }
    }

    /// What a release up to `day_id` would take from the escrow of
    /// `provider_address`: the sum of the buckets whose day is at or before
    /// `day_id`, the head that the chain would have, and the number of these
    /// buckets. The state stays as it is, so that a second call gives the same.
    pub fn process(&self, provider_address: &AccountId, day_id: u64) -> (matured: Result<
        (u128, u64, u128),
        Error,
    >)
        requires
            self.wf(),
        ensures
            match matured {
                Ok((sum, head, consumed)) => {
                    &&& self.provider_map().contains_key(*provider_address)
                    &&& sum == matured_sum(self.schedule(*provider_address), day_id)
                    &&& consumed == matured_count(self.schedule(*provider_address), day_id)
                    &&& head == head_after(
                        self.schedule(*provider_address),
                        day_id,
                        self.provider_map()[*provider_address].payment_manager.head,
                    )
                },
                Err(e) => {
                    &&& e == Error::ProviderNotFound
                    &&& !self.provider_map().contains_key(*provider_address)
                },
            },
    {
        let list = match self.providers.get(provider_address) {
            Some(found) => found.payment_manager,
            None => {
                return Err(Error::ProviderNotFound);
            },
        };
        Ok(
            peek(
                &self.daily_locked_amounts,
                provider_address,
                list,
                day_id,
                Ghost(self.days(*provider_address)),
            ),
        )
    }

    /// Releases what has matured in the escrow of `provider_address` by
    /// `day_id`: takes every bucket whose day is at or before `day_id` out of
    /// the chain. Gives the sum of their amounts, the new head and their number.
    /// A second release up to the same day takes nothing.
    pub fn release(&mut self, provider_address: &AccountId, day_id: u64) -> (released: Result<
        (u128, u64, u128),
        Error,
    >)
        requires
            old(self).wf(),
        ensures
            final(self).wf(),
            match released {
                Ok((sum, head, consumed)) => {
                    &&& old(self).provider_map().contains_key(*provider_address)
                    &&& final(self).differs_in_escrow_of(*old(self), *provider_address)
                    &&& sum == matured_sum(old(self).schedule(*provider_address), day_id)
                    &&& consumed == matured_count(old(self).schedule(*provider_address), day_id)
                    &&& final(self).schedule(*provider_address) == unreleased(
                        old(self).schedule(*provider_address),
                        day_id,
                    )
                    &&& head == final(self).provider_map()[*provider_address].payment_manager.head
                    &&& head == head_after(
                        old(self).schedule(*provider_address),
                        day_id,
                        old(self).provider_map()[*provider_address].payment_manager.head,
                    )
                    &&& final(self).provider_map()[*provider_address].payment_manager.back == old(
                        self,
                    ).provider_map()[*provider_address].payment_manager.back
                },
                Err(e) => {
                    &&& e == Error::ProviderNotFound
                    &&& !old(self).provider_map().contains_key(*provider_address)
                    &&& *final(self) == *old(self)
                },
            },
    {
        let ghost before = *self;
        let found = self.providers.get(provider_address);
        if found.is_none() {
            return Err(Error::ProviderNotFound);
        }
        let mut provider = found.unwrap();
        let list = provider.payment_manager;
        let ghost days = self.days(*provider_address);
        proof {
            assert(keys_within(self.bucket_map(), *provider_address, days)) by {
                reveal(keys_within);
                assert forall|d: u64| #[trigger]
                    self.bucket_map().contains_key((*provider_address, d)) implies days.contains(
                    d,
                ) by {}
            }
        }
        let out = sweep(&mut self.daily_locked_amounts, provider_address, list, day_id, Ghost(days));
        provider.payment_manager = out.2;
        self.providers.insert(provider_address, &provider);
        self.chains = Ghost(self.chains@.insert(*provider_address, out.3@));
        proof {
            lemma_escrow_commit(before, *self, *provider_address, out.2, out.3@);
        }
        Ok((out.0, out.2.head, out.1))
    }
}

} // verus!
