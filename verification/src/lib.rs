//! Accounting core of a subscription marketplace.
//!
//! Providers publish time-boxed plans, users subscribe by paying upfront, and a
//! permille of every payment is held in escrow against pro-rated refunds. The
//! escrow of each provider is a day-keyed chain of buckets kept in contract
//! storage; matured buckets are swept in one pass.

pub mod account;
pub mod catalog;
pub mod digest;
pub mod error;
pub mod escrow;
pub mod ledger;
pub mod lookup;
pub mod names;
pub mod plan;
pub mod record;
pub mod service;
pub mod state;
pub mod store;

pub use crate::account::AccountId;
pub use crate::error::Error;
pub use crate::plan::PlanConsts;
pub use crate::service::{RefundPayout, RenewPayout, Transfer};
pub use crate::state::Subscrypt;
pub use crate::record::{
    DailyLockedAmount, LinkedList, PlanRecord, Provider, SubscriptionRecord, User,
};
