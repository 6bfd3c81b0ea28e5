//! Why an operation was rejected.

use vstd::prelude::*;

verus! {

/// The reasons for which the contract rejects a call. A rejected call leaves the
/// state as it was.
#[derive(Clone, Copy, Debug, PartialEq, Eq)]
pub enum Error {
    /// The payment sent with a registration is below the registration fee.
    InsufficientRegistrationFee,
    /// The caller already is a provider.
    AlreadyRegistered,
    /// The caller is not a provider.
    NotRegistered,
    /// The vectors that describe new plans differ in length.
    MismatchedPlanVectors,
    /// A plan's refund policy is above 1000 permille.
    InvalidRefundPolicy,
    /// The plan index does not name a plan of the provider.
    InvalidPlanIndex,
    /// The provider named in the call does not exist.
    ProviderNotFound,
    /// The payment differs from the plan's price.
    WrongPayment,
    /// The plan is disabled.
    PlanDisabled,
    /// The caller holds an active subscription to the plan.
    AlreadySubscribed,
    /// The caller holds no active subscription to the plan.
    NotSubscribed,
    /// The escrow bucket of a subscription is gone or holds too little.
    EscrowMissing,
    /// The user is unknown.
    UserNotFound,
    /// The user has no history with the provider.
    NoHistory,
    /// The secret does not match the stored hash.
    WrongAuth,
    /// A time lies before the contract's start, or before the start of the
    /// subscription that the call is about.
    ClockBeforeStart,
    /// The end of a subscription lies beyond the largest time.
    TimeOverflow,
    /// The username belongs to another account.
    UsernameTaken,
    /// The account has another username.
    AlreadyNamed,
    /// A storage table cannot take another entry.
    StorageFull,
    /// The provider's escrow would exceed the largest balance.
    EscrowOverflow,
}

} // verus!
