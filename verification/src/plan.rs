//! Plan terms and the permille arithmetic of payments and refunds.

use vstd::prelude::*;
use vstd::arithmetic::div_mod::*;
use vstd::arithmetic::mul::*;

verus! {

/// Parts per thousand in a whole.
pub const PERMILLE: u128 = 1000;

/// Seconds in one day, the width of an escrow bucket.
pub const SECONDS_PER_DAY: u64 = 86400;

/// The terms of a plan. `max_refund_percent_policy` is out of 1000.
#[derive(Clone, Copy, Debug, PartialEq, Eq)]
pub struct PlanConsts {
    pub duration: u64,
    pub active_session_limit: u128,
    pub price: u128,
    pub max_refund_percent_policy: u128,
    pub disabled: bool,
}

impl PlanConsts {
    /// A plan is valid when its refund policy is at most 1000 permille.
    pub open spec fn valid(self) -> bool {
        self.max_refund_percent_policy <= 1000
    }

    /// The plan whose fields are the given values, in the order of the fields.
    pub fn from_parts(parts: (u64, u128, u128, u128, bool)) -> (plan: PlanConsts)
        ensures
            plan.parts_spec() == parts,
    {
        PlanConsts {
            duration: parts.0,
            active_session_limit: parts.1,
            price: parts.2,
            max_refund_percent_policy: parts.3,
            disabled: parts.4,
        }
    }

    /// The plan's fields, in order.
    pub open spec fn parts_spec(self) -> (u64, u128, u128, u128, bool) {
        (
            self.duration,
            self.active_session_limit,
            self.price,
            self.max_refund_percent_policy,
            self.disabled,
        )
    }

    /// The plan's fields, in order.
    pub fn parts(&self) -> (parts: (u64, u128, u128, u128, bool))
        ensures
            parts == self.parts_spec(),
    {
        (
            self.duration,
            self.active_session_limit,
            self.price,
            self.max_refund_percent_policy,
            self.disabled,
        )
    }
}

/// `amount * permille / 1000`, rounded down.
pub open spec fn permille_of(amount: int, permille: int) -> int {
    amount * permille / 1000
}

/// What the provider is paid at once when a plan is bought.
pub open spec fn immediate_payment(price: int, cap: int) -> int {
    permille_of(price, 1000 - cap)
}

/// What is locked in escrow when a plan is bought.
pub open spec fn escrowed_amount(paid: int, cap: int) -> int {
    permille_of(paid, cap)
}

/// The permille of the plan's time that is left after `elapsed` of `duration`.
pub open spec fn remaining_permille(elapsed: int, duration: int) -> int {
    1000 - elapsed * 1000 / duration
}

/// The permille of the price that a refund pays the user: what is left of the
/// plan's time, capped by the refund policy.
pub open spec fn refund_permille(elapsed: int, duration: int, cap: int) -> int {
    if remaining_permille(elapsed, duration) > cap {
        cap
    } else {
        remaining_permille(elapsed, duration)
    }
}

/// What a refund after `elapsed` pays the user.
pub open spec fn user_refund(price: int, cap: int, elapsed: int, duration: int) -> int {
    permille_of(price, refund_permille(elapsed, duration, cap))
}

/// What a refund after `elapsed` pays the provider out of the escrow.
pub open spec fn provider_refund(price: int, cap: int, elapsed: int, duration: int) -> int {
    permille_of(price, cap - refund_permille(elapsed, duration, cap))
}

/// The day bucket, counted from the contract's start, that `time` falls into.
pub open spec fn day_of(time: int, start_time: int) -> int {
    (time - start_time) / 86400
}

/// A permille of an amount is the permille of its thousands and the permille
/// of the rest, neither of which leaves the range of the amount.
proof fn lemma_permille_split(amount: int, permille: int)
    requires
        0 <= amount,
        0 <= permille <= 1000,
    ensures
        permille_of(amount, permille) == (amount / 1000) * permille + (amount % 1000) * permille
            / 1000,
        0 <= (amount / 1000) * permille <= amount,
        0 <= (amount % 1000) * permille <= 999 * 1000,
        0 <= permille_of(amount, permille) <= amount,
{
    let q = amount / 1000;
    let r = amount % 1000;
    lemma_fundamental_div_mod(amount, 1000);
    assert(amount == 1000 * q + r);
    assert(amount * permille == (q * permille) * 1000 + r * permille) by (nonlinear_arith)
        requires
            amount == 1000 * q + r,
    ;
    assert(0 <= r * permille <= 999 * 1000) by (nonlinear_arith)
        requires
            0 <= r <= 999,
            0 <= permille <= 1000,
    ;
    assert(0 <= q * permille <= q * 1000) by (nonlinear_arith)
        requires
            0 <= q,
            0 <= permille <= 1000,
    ;
    assert(((q * permille) * 1000 + r * permille) / 1000 == q * permille + (r * permille) / 1000)
        by {
        lemma_hoist_over_denominator(r * permille, q * permille, 1000);
        assert((q * permille) * 1000 == 1000 * (q * permille)) by (nonlinear_arith);
    }
    assert((r * permille) / 1000 <= r) by (nonlinear_arith)
        requires
            0 <= r,
            0 <= permille <= 1000,
    ;
}

/// `amount * permille / 1000` without overflow, for any amount.
pub fn permille_share(amount: u128, permille: u128) -> (share: u128)
    requires
        permille <= 1000,
    ensures
        share == permille_of(amount as int, permille as int),
        share <= amount,
{
    proof {
        lemma_permille_split(amount as int, permille as int);
    }
    let whole: u128 = (amount / PERMILLE) * permille;
    let rest: u128 = (amount % PERMILLE) * permille / PERMILLE;
    whole + rest
}

/// Conservation: what the provider is paid at once and what is locked in
/// escrow never exceed the payment, and fall short of it by at most one unit,
/// the one that rounding down may lose. Where a thousandth of the payment times
/// the policy is whole, they add up to the payment exactly.
pub proof fn lemma_payment_conserved(paid: u128, cap: u128)
    requires
        cap <= 1000,
    ensures
        immediate_payment(paid as int, cap as int) + escrowed_amount(paid as int, cap as int)
            <= paid,
        paid - (immediate_payment(paid as int, cap as int) + escrowed_amount(
            paid as int,
            cap as int,
        )) <= 1,
        (paid * cap) % 1000 == 0 ==> immediate_payment(paid as int, cap as int) + escrowed_amount(
            paid as int,
            cap as int,
        ) == paid,
        0 <= immediate_payment(paid as int, cap as int),
        0 <= escrowed_amount(paid as int, cap as int),
{
    let a = paid * (1000 - cap);
    let b = paid * cap;
    assert(a + b == 1000 * paid) by (nonlinear_arith)
        requires
            a == paid * (1000 - cap),
            b == paid * cap,
    ;
    assert(0 <= a && 0 <= b) by (nonlinear_arith)
        requires
            a == paid * (1000 - cap),
            b == paid * cap,
            0 <= cap <= 1000,
            0 <= paid,
    ;
    lemma_fundamental_div_mod(a, 1000);
    lemma_fundamental_div_mod(b, 1000);
    lemma_div_pos_is_pos(a, 1000);
    lemma_div_pos_is_pos(b, 1000);
}

/// Refund monotonicity: with price and policy fixed, a later refund never pays
/// the user more than an earlier one, from the start of the plan to its end.
pub proof fn lemma_refund_monotone(price: u128, cap: u128, duration: u64, earlier: u64, later: u64)
    requires
        cap <= 1000,
        earlier <= later <= duration,
        duration > 0,
    ensures
        user_refund(price as int, cap as int, later as int, duration as int) <= user_refund(
            price as int,
            cap as int,
            earlier as int,
            duration as int,
        ),
{
    let d = duration as int;
    assert(earlier * 1000 <= later * 1000);
    lemma_div_is_ordered(earlier * 1000, later * 1000, d);
    let k1 = refund_permille(earlier as int, d, cap as int);
    let k2 = refund_permille(later as int, d, cap as int);
    assert(k2 <= k1);
    lemma_mul_inequality(k2, k1, price as int);
    assert(price * k2 == k2 * price) by (nonlinear_arith);
    assert(price * k1 == k1 * price) by (nonlinear_arith);
    lemma_div_is_ordered(price * k2, price * k1, 1000);
}

/// A refund stays within the escrow: what it pays the user and the provider
/// together never exceeds what was locked when the plan was bought, and falls
/// short of it by at most one unit.
pub proof fn lemma_refund_within_escrow(price: u128, cap: u128, duration: u64, elapsed: u64)
    requires
        cap <= 1000,
        elapsed < duration,
    ensures
        0 <= refund_permille(elapsed as int, duration as int, cap as int) <= cap,
        0 <= user_refund(price as int, cap as int, elapsed as int, duration as int),
        0 <= provider_refund(price as int, cap as int, elapsed as int, duration as int),
        user_refund(price as int, cap as int, elapsed as int, duration as int) + provider_refund(
            price as int,
            cap as int,
            elapsed as int,
            duration as int,
        ) <= escrowed_amount(price as int, cap as int),
        escrowed_amount(price as int, cap as int) - (user_refund(
            price as int,
            cap as int,
            elapsed as int,
            duration as int,
        ) + provider_refund(price as int, cap as int, elapsed as int, duration as int)) <= 1,
{
    let d = duration as int;
    assert((elapsed * 1000) / d < 1000) by (nonlinear_arith)
        requires
            0 <= elapsed < d,
    ;
    assert(0 <= (elapsed * 1000) / d) by (nonlinear_arith)
        requires
            0 <= elapsed < d,
    ;
    let k = refund_permille(elapsed as int, d, cap as int);
    let a = price * k;
    let b = price * (cap - k);
    let c = price * cap;
    assert(a + b == c) by (nonlinear_arith)
        requires
            a == price * k,
            b == price * (cap - k),
            c == price * cap,
    ;
    assert(0 <= a && 0 <= b) by (nonlinear_arith)
        requires
            a == price * k,
            b == price * (cap - k),
            0 <= k <= cap,
            0 <= price,
    ;
    lemma_fundamental_div_mod(a, 1000);
    lemma_fundamental_div_mod(b, 1000);
    lemma_fundamental_div_mod(c, 1000);
    lemma_div_pos_is_pos(a, 1000);
    lemma_div_pos_is_pos(b, 1000);
}

} // verus!
