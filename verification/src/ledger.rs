//! The escrow schedule of one provider as a mathematical value: the buckets
//! that have not been released, ordered by day.

use vstd::prelude::*;

verus! {

/// One day of a schedule and the amount that unlocks on it.
pub ghost struct Bucket {
    pub day: u64,
    pub amount: nat,
}

/// Days strictly ascend along the schedule.
pub open spec fn sorted(s: Seq<Bucket>) -> bool {
    forall|i: int, j: int| 0 <= i < j < s.len() ==> s[i].day < s[j].day
}

/// Whether the schedule has a bucket for `day`.
pub open spec fn holds_day(s: Seq<Bucket>, day: u64) -> bool {
    exists|i: int| 0 <= i < s.len() && #[trigger] s[i].day == day
}

/// The amount locked for `day`, 0 where the schedule has no such bucket.
pub open spec fn amount_on(s: Seq<Bucket>, day: u64) -> nat
    decreases s.len(),
{
    if s.len() == 0 {
        0
    } else if s.last().day == day {
        s.last().amount
    } else {
        amount_on(s.drop_last(), day)
    }
}

/// The sum of all amounts of the schedule.
pub open spec fn locked_sum(s: Seq<Bucket>) -> nat
    decreases s.len(),
{
    if s.len() == 0 {
        0
    } else {
        locked_sum(s.drop_last()) + s.last().amount
    }
}

/// The number of buckets whose day is at or before `cutoff`.
pub open spec fn matured_count(s: Seq<Bucket>, cutoff: u64) -> nat
    decreases s.len(),
{
    if s.len() == 0 {
        0
    } else if s.last().day <= cutoff {
        matured_count(s.drop_last(), cutoff) + 1
    } else {
        matured_count(s.drop_last(), cutoff)
    }
}

/// The sum of the amounts whose day is at or before `cutoff`.
pub open spec fn matured_sum(s: Seq<Bucket>, cutoff: u64) -> nat
    decreases s.len(),
{
    if s.len() == 0 {
        0
    } else if s.last().day <= cutoff {
        matured_sum(s.drop_last(), cutoff) + s.last().amount
    } else {
        matured_sum(s.drop_last(), cutoff)
    }
}

/// The schedule without the buckets whose day is at or before `cutoff`.
pub open spec fn unreleased(s: Seq<Bucket>, cutoff: u64) -> Seq<Bucket>
    decreases s.len(),
{
    if s.len() == 0 {
        s
    } else if s.last().day <= cutoff {
        unreleased(s.drop_last(), cutoff)
    } else {
        unreleased(s.drop_last(), cutoff).push(s.last())
    }
}

/// The schedule after `amount` was locked for `day`: added to the day's bucket,
/// or to a new bucket in the day's place.
pub open spec fn with_deposit(s: Seq<Bucket>, day: u64, amount: nat) -> Seq<Bucket>
    decreases s.len(),
{
    if s.len() == 0 {
        seq![Bucket { day, amount }]
    } else if s.last().day < day {
        s.push(Bucket { day, amount })
    } else if s.last().day == day {
        s.drop_last().push(Bucket { day, amount: s.last().amount + amount })
    } else {
        with_deposit(s.drop_last(), day, amount).push(s.last())
    }
}

/// The schedule after `amount` was taken out of the bucket of `day`. The bucket
/// stays, also when nothing is left in it.
pub open spec fn with_withdrawal(s: Seq<Bucket>, day: u64, amount: nat) -> Seq<Bucket>
    decreases s.len(),
{
    if s.len() == 0 {
        s
    } else if s.last().day == day {
        s.drop_last().push(Bucket { day, amount: (s.last().amount - amount) as nat })
    } else {
        with_withdrawal(s.drop_last(), day, amount).push(s.last())
    }
}

/// A new bucket for a day that lies between the days before place `k` and the
/// days from place `k` on goes to place `k`.
pub proof fn lemma_deposit_new(s: Seq<Bucket>, day: u64, amount: nat, k: int)
    requires
        sorted(s),
        0 <= k <= s.len(),
        forall|j: int| 0 <= j < k ==> s[j].day < day,
        forall|j: int| k <= j < s.len() ==> s[j].day > day,
    ensures
        with_deposit(s, day, amount) == s.insert(k, Bucket { day, amount }),
        sorted(with_deposit(s, day, amount)),
        locked_sum(with_deposit(s, day, amount)) == locked_sum(s) + amount,
    decreases s.len(),
{
    let b = Bucket { day, amount };
    if s.len() == 0 {
        assert(seq![b] =~= s.insert(k, b));
        assert(seq![b].drop_last() =~= s);
    } else if k == s.len() {
        assert(s.push(b) =~= s.insert(k, b));
        assert(s.push(b).drop_last() =~= s);
    } else {
        let t = s.drop_last();
        lemma_deposit_new(t, day, amount, k);
        assert(t.insert(k, b).push(s.last()) =~= s.insert(k, b));
        let r = with_deposit(s, day, amount);
        assert(r.drop_last() =~= with_deposit(t, day, amount));
        assert forall|i: int, j: int| 0 <= i < j < r.len() implies r[i].day < r[j].day by {
            if j < r.len() - 1 {
                assert(r[i] == with_deposit(t, day, amount)[i]);
                assert(r[j] == with_deposit(t, day, amount)[j]);
            } else {
                if i < k {
                    assert(r[i] == s[i]);
                } else if i == k {
                } else {
                    assert(r[i] == s[i - 1]);
                }
            }
        }
    }
}

/// Locking more for a day that has a bucket, at place `k`, raises that bucket.
pub proof fn lemma_deposit_existing(s: Seq<Bucket>, day: u64, amount: nat, k: int)
    requires
        sorted(s),
        0 <= k < s.len(),
        s[k].day == day,
    ensures
        with_deposit(s, day, amount) == s.update(
            k,
            Bucket { day, amount: s[k].amount + amount },
        ),
        sorted(with_deposit(s, day, amount)),
        locked_sum(with_deposit(s, day, amount)) == locked_sum(s) + amount,
    decreases s.len(),
{
    let b = Bucket { day, amount: s[k].amount + amount };
    let t = s.drop_last();
    if k == s.len() - 1 {
        assert(t.push(b) =~= s.update(k, b));
        assert(t.push(b).drop_last() =~= t);
    } else {
        lemma_deposit_existing(t, day, amount, k);
        assert(t.update(k, b).push(s.last()) =~= s.update(k, b));
        assert(with_deposit(s, day, amount).drop_last() =~= with_deposit(t, day, amount));
    }
}

/// Taking an amount out of the bucket at place `k` lowers that bucket.
pub proof fn lemma_withdrawal_at(s: Seq<Bucket>, day: u64, amount: nat, k: int)
    requires
        sorted(s),
        0 <= k < s.len(),
        s[k].day == day,
        amount <= s[k].amount,
    ensures
        with_withdrawal(s, day, amount) == s.update(
            k,
            Bucket { day, amount: (s[k].amount - amount) as nat },
        ),
        sorted(with_withdrawal(s, day, amount)),
        locked_sum(with_withdrawal(s, day, amount)) == locked_sum(s) - amount,
        amount <= locked_sum(s),
    decreases s.len(),
{
    let b = Bucket { day, amount: (s[k].amount - amount) as nat };
    let t = s.drop_last();
    if k == s.len() - 1 {
        assert(t.push(b) =~= s.update(k, b));
        assert(t.push(b).drop_last() =~= t);
    } else {
        lemma_withdrawal_at(t, day, amount, k);
        assert(t.update(k, b).push(s.last()) =~= s.update(k, b));
        assert(with_withdrawal(s, day, amount).drop_last() =~= with_withdrawal(t, day, amount));
    }
}

/// Where the first `k` buckets have matured and the others have not, a release
/// takes exactly the first `k`.
pub proof fn lemma_release_prefix(s: Seq<Bucket>, cutoff: u64, k: int)
    requires
        sorted(s),
        0 <= k <= s.len(),
        forall|j: int| 0 <= j < k ==> s[j].day <= cutoff,
        k < s.len() ==> s[k].day > cutoff,
    ensures
        matured_count(s, cutoff) == k,
        matured_sum(s, cutoff) == locked_sum(s.take(k)),
        unreleased(s, cutoff) == s.skip(k),
        matured_sum(s, cutoff) + locked_sum(s.skip(k)) == locked_sum(s),
    decreases s.len(),
{
    if s.len() == 0 {
        assert(s.take(k) =~= s);
        assert(s.skip(k) =~= s);
    } else {
        let t = s.drop_last();
        if k == s.len() {
            lemma_release_prefix(t, cutoff, k - 1);
            assert(s.take(k) =~= s);
            assert(t.take(k - 1) =~= t);
            assert(t.skip(k - 1) =~= s.skip(k));
            assert(s.skip(k) =~= Seq::<Bucket>::empty());
        } else {
            assert(s[k].day <= s.last().day);
            lemma_release_prefix(t, cutoff, k);
            assert(t.take(k) =~= s.take(k));
            assert(t.skip(k).push(s.last()) =~= s.skip(k));
            assert(s.skip(k).drop_last() =~= t.skip(k));
        }
    }
}

/// The sum of a schedule is at least each of its amounts.
pub proof fn lemma_amount_within_sum(s: Seq<Bucket>, k: int)
    requires
        0 <= k < s.len(),
    ensures
        s[k].amount <= locked_sum(s),
    decreases s.len(),
{
    if k < s.len() - 1 {
        lemma_amount_within_sum(s.drop_last(), k);
    }
}

/// The sum of the first `k + 1` buckets is the sum of the first `k` and the
/// amount of the bucket at place `k`.
pub proof fn lemma_sum_step(s: Seq<Bucket>, k: int)
    requires
        0 <= k < s.len(),
    ensures
        locked_sum(s.take(k + 1)) == locked_sum(s.take(k)) + s[k].amount,
        locked_sum(s.take(k + 1)) <= locked_sum(s),
    decreases s.len() - k,
{
    assert(s.take(k + 1).drop_last() =~= s.take(k));
    if k + 1 == s.len() {
        assert(s.take(k + 1) =~= s);
    } else {
        lemma_sum_step(s, k + 1);
    }
}

/// In an ascending schedule the day at place `k` is at least `k` days after
/// the first.
pub proof fn lemma_days_spread(s: Seq<Bucket>, k: int)
    requires
        sorted(s),
        0 <= k < s.len(),
    ensures
        s[k].day >= s[0].day + k,
    decreases k,
{
    if k > 0 {
        lemma_days_spread(s, k - 1);
    }
}

/// A day beyond the last day of an ascending schedule has no bucket.
proof fn lemma_absent_beyond(s: Seq<Bucket>, day: u64)
    requires
        sorted(s),
        s.len() > 0 ==> s.last().day < day,
    ensures
        amount_on(s, day) == 0,
    decreases s.len(),
{
    if s.len() > 0 {
        let t = s.drop_last();
        if t.len() > 0 {
            assert(t.last() == s[s.len() - 2]);
        }
        assert forall|i: int, j: int| 0 <= i < j < t.len() implies t[i].day < t[j].day by {
            assert(t[i] == s[i] && t[j] == s[j]);
        }
        lemma_absent_beyond(t, day);
    }
}

/// Escrow round trip: locking an amount for a day raises what is locked for
/// that day by the amount, and taking the same amount back restores it. After
/// both, a release up to any day pays what it would have paid before: the
/// subscription contributes nothing.
pub proof fn lemma_deposit_then_withdrawal(s: Seq<Bucket>, day: u64, amount: nat, cutoff: u64)
    requires
        sorted(s),
    ensures
        holds_day(with_deposit(s, day, amount), day),
        amount_on(with_deposit(s, day, amount), day) == amount_on(s, day) + amount,
        amount_on(with_withdrawal(with_deposit(s, day, amount), day, amount), day) == amount_on(
            s,
            day,
        ),
        matured_sum(with_withdrawal(with_deposit(s, day, amount), day, amount), cutoff)
            == matured_sum(s, cutoff),
        locked_sum(with_withdrawal(with_deposit(s, day, amount), day, amount)) == locked_sum(s),
    decreases s.len(),
{
    let locked = with_deposit(s, day, amount);
    let back = with_withdrawal(locked, day, amount);
    if s.len() == 0 {
        assert(locked.drop_last() =~= s);
        assert(back.drop_last() =~= s);
        assert(locked[0].day == day);
    } else if s.last().day < day {
        lemma_absent_beyond(s, day);
        assert(locked.drop_last() =~= s);
        assert(back.drop_last() =~= s);
        assert(locked[locked.len() - 1].day == day);
    } else if s.last().day == day {
        assert(locked.drop_last() =~= s.drop_last());
        assert(back =~= s);
        assert(locked[locked.len() - 1].day == day);
    } else {
        let t = s.drop_last();
        assert forall|i: int, j: int| 0 <= i < j < t.len() implies t[i].day < t[j].day by {
            assert(t[i] == s[i] && t[j] == s[j]);
        }
        lemma_deposit_then_withdrawal(t, day, amount, cutoff);
        assert(locked.drop_last() =~= with_deposit(t, day, amount));
        let at = choose|i: int|
            0 <= i < with_deposit(t, day, amount).len() && #[trigger] with_deposit(
                t,
                day,
                amount,
            )[i].day == day;
        assert(locked[at].day == day);
        assert(back.drop_last() =~= with_withdrawal(with_deposit(t, day, amount), day, amount));
    }
}

/// Idempotent release: after a release up to a day, a second release up to
/// that day or an earlier one takes no bucket and pays nothing.
pub proof fn lemma_second_release_is_empty(s: Seq<Bucket>, cutoff: u64, again: u64)
    requires
        again <= cutoff,
    ensures
        matured_sum(unreleased(s, cutoff), again) == 0,
        matured_count(unreleased(s, cutoff), again) == 0,
        unreleased(unreleased(s, cutoff), again) == unreleased(s, cutoff),
    decreases s.len(),
{
    if s.len() > 0 {
        lemma_second_release_is_empty(s.drop_last(), cutoff, again);
        if s.last().day > cutoff {
            assert(unreleased(s, cutoff).drop_last() =~= unreleased(s.drop_last(), cutoff));
        }
    }
}

/// In an ascending schedule the amount locked for the day at place `k` is the
/// amount of the bucket at place `k`.
pub proof fn lemma_amount_at(s: Seq<Bucket>, k: int)
    requires
        sorted(s),
        0 <= k < s.len(),
    ensures
        amount_on(s, s[k].day) == s[k].amount,
        holds_day(s, s[k].day),
    decreases s.len(),
{
    if k < s.len() - 1 {
        let t = s.drop_last();
        assert forall|i: int, j: int| 0 <= i < j < t.len() implies t[i].day < t[j].day by {
            assert(t[i] == s[i] && t[j] == s[j]);
        }
        lemma_amount_at(t, k);
        assert(t[k] == s[k]);
    }
}

/// Locking an amount for one day keeps the buckets of the other days and what
/// they hold.
pub proof fn lemma_deposit_keeps_others(s: Seq<Bucket>, day: u64, amount: nat, other: u64)
    requires
        sorted(s),
        other != day,
    ensures
        holds_day(with_deposit(s, day, amount), other) == holds_day(s, other),
        amount_on(with_deposit(s, day, amount), other) == amount_on(s, other),
        holds_day(with_deposit(s, day, amount), day),
    decreases s.len(),
{
    let r = with_deposit(s, day, amount);
    if s.len() == 0 {
        assert(r[0].day == day);
        assert(r.drop_last() =~= s);
    } else if s.last().day < day {
        assert(r[r.len() - 1].day == day);
        assert(r.drop_last() =~= s);
        if holds_day(s, other) {
            let i = choose|i: int| 0 <= i < s.len() && #[trigger] s[i].day == other;
            assert(r[i].day == other);
        }
        if holds_day(r, other) {
            let i = choose|i: int| 0 <= i < r.len() && #[trigger] r[i].day == other;
            assert(s[i].day == other);
        }
    } else if s.last().day == day {
        assert(r[r.len() - 1].day == day);
        assert(r.drop_last() =~= s.drop_last());
        if holds_day(s, other) {
            let i = choose|i: int| 0 <= i < s.len() && #[trigger] s[i].day == other;
            assert(r[i].day == other);
        }
        if holds_day(r, other) {
            let i = choose|i: int| 0 <= i < r.len() && #[trigger] r[i].day == other;
            assert(s[i].day == other);
        }
    } else {
        let t = s.drop_last();
        assert forall|i: int, j: int| 0 <= i < j < t.len() implies t[i].day < t[j].day by {
            assert(t[i] == s[i] && t[j] == s[j]);
        }
        lemma_deposit_keeps_others(t, day, amount, other);
        let rt = with_deposit(t, day, amount);
        assert(r.drop_last() =~= rt);
        assert(r.last() == s.last());
        let d = choose|i: int| 0 <= i < rt.len() && #[trigger] rt[i].day == day;
        assert(r[d].day == day);
        if holds_day(s, other) {
            let i = choose|i: int| 0 <= i < s.len() && #[trigger] s[i].day == other;
            if i < s.len() - 1 {
                assert(t[i].day == other);
                let j = choose|j: int| 0 <= j < rt.len() && #[trigger] rt[j].day == other;
                assert(r[j].day == other);
            } else {
                assert(r[r.len() - 1].day == other);
            }
        }
        if holds_day(r, other) {
            let i = choose|i: int| 0 <= i < r.len() && #[trigger] r[i].day == other;
            if i < r.len() - 1 {
                assert(rt[i].day == other);
                let j = choose|j: int| 0 <= j < t.len() && #[trigger] t[j].day == other;
                assert(s[j].day == other);
            } else {
                assert(s[s.len() - 1].day == other);
            }
        }
    }
}

/// The ledger keeps its balance: locking an amount raises the sum of a schedule
/// by that amount.
pub proof fn lemma_deposit_raises_sum(s: Seq<Bucket>, day: u64, amount: nat)
    ensures
        locked_sum(with_deposit(s, day, amount)) == locked_sum(s) + amount,
    decreases s.len(),
{
    let r = with_deposit(s, day, amount);
    if s.len() == 0 {
        assert(r.drop_last() =~= s);
    } else if s.last().day < day {
        assert(r.drop_last() =~= s);
    } else if s.last().day == day {
        assert(r.drop_last() =~= s.drop_last());
    } else {
        lemma_deposit_raises_sum(s.drop_last(), day, amount);
        assert(r.drop_last() =~= with_deposit(s.drop_last(), day, amount));
    }
}

/// The ledger keeps its balance: taking an amount out of a bucket that holds
/// at least as much lowers the sum of a schedule by that amount.
pub proof fn lemma_withdrawal_lowers_sum(s: Seq<Bucket>, day: u64, amount: nat)
    requires
        sorted(s),
        holds_day(s, day),
        amount <= amount_on(s, day),
    ensures
        locked_sum(with_withdrawal(s, day, amount)) == locked_sum(s) - amount,
{
    let k = choose|k: int| 0 <= k < s.len() && #[trigger] s[k].day == day;
    lemma_amount_at(s, k);
    lemma_withdrawal_at(s, day, amount, k);
}

/// The ledger keeps its balance: what a release pays and what stays locked
/// add up to what was locked.
pub proof fn lemma_release_splits_sum(s: Seq<Bucket>, cutoff: u64)
    ensures
        matured_sum(s, cutoff) + locked_sum(unreleased(s, cutoff)) == locked_sum(s),
        matured_count(s, cutoff) + unreleased(s, cutoff).len() == s.len(),
    decreases s.len(),
{
    if s.len() > 0 {
        lemma_release_splits_sum(s.drop_last(), cutoff);
        if s.last().day > cutoff {
            assert(unreleased(s, cutoff).drop_last() =~= unreleased(s.drop_last(), cutoff));
        }
    }
}

} // verus!
