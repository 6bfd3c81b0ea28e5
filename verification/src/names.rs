//! Usernames: each account may claim one username, and a username belongs to
//! the account that claimed it first.

use vstd::prelude::*;
use crate::account::{same_bytes, AccountId};
use crate::error::Error;
use crate::state::Subscrypt;

verus! {

impl Subscrypt {
    /// Why a claim of `username` by `caller` is rejected, if it is. The
    /// reasons are tried in this order: a username that belongs to another
    /// account, a caller that has another username, a full table. A caller
    /// that claims its own username again is not rejected.
    pub open spec fn register_username_error(self, caller: AccountId, username: Seq<char>) -> Option<
        Error,
    > {
        if self.name_map().contains_key(username) {
            if self.name_map()[username] == caller {
                None
            } else {
                Some(Error::UsernameTaken)
            }
        } else if self.handle_map().contains_key(caller) {
            Some(Error::AlreadyNamed)
        } else if self.name_map().dom().len() >= u32::MAX || self.handle_map().dom().len()
            >= u32::MAX {
            Some(Error::StorageFull)
        } else {
            None
        }
    }

    /// `self` is `before` but for the usernames.
    pub open spec fn same_but_names(self, before: Subscrypt) -> bool {
        &&& self.start_time == before.start_time
        &&& self.provider_register_fee == before.provider_register_fee
        &&& self.providers == before.providers
        &&& self.users == before.users
        &&& self.records == before.records
        &&& self.plan_index_to_record_index == before.plan_index_to_record_index
        &&& self.daily_locked_amounts == before.daily_locked_amounts
        &&& self.chains == before.chains
    }

    /// Claims `username` for `caller`: from now on the username finds the
    /// caller, and the caller has the username.
    pub fn register_username(&mut self, caller: &AccountId, username: String) -> (done: Result<
        (),
        Error,
    >)
        requires
            old(self).wf(),
        ensures
            final(self).wf(),
            match done {
                Ok(_) => {
                    &&& old(self).register_username_error(*caller, username@) is None
                    &&& final(self).name_map() == old(self).name_map().insert(username@, *caller)
                    &&& final(self).handle_map() == old(self).handle_map().insert(
                        *caller,
                        username@,
                    )
                    &&& final(self).same_but_names(*old(self))
                },
                Err(e) => {
                    &&& old(self).register_username_error(*caller, username@) == Some(e)
                    &&& *final(self) == *old(self)
                },
            },
    {
        let ghost before = *self;
        match self.addresses.get(&username) {
            Some(owner) => {
                if same_bytes(&owner.bytes, &caller.bytes) {
                    proof {
                        assert(before.handle_map().contains_key(*caller));
                        assert(before.name_map().insert(username@, *caller)
                            =~= before.name_map());
                        assert(before.handle_map().insert(*caller, username@)
                            =~= before.handle_map());
                    }
                    return Ok(());
                }
                return Err(Error::UsernameTaken);
            },
            None => {},
        }
        if self.usernames.get(caller).is_some() {
            return Err(Error::AlreadyNamed);
        }
        if self.addresses.len() == u32::MAX || self.usernames.len() == u32::MAX {
            return Err(Error::StorageFull);
        }
        self.addresses.insert(&username, caller);
        self.usernames.insert(caller, &username);
        proof {
            assert forall|n: Seq<char>| #[trigger]
                self.name_map().contains_key(n) implies self.handle_map().contains_key(
                self.name_map()[n],
            ) && self.handle_map()[self.name_map()[n]] == n by {
                if n != username@ {
                    assert(before.name_map().contains_key(n));
                    assert(before.handle_map().contains_key(before.name_map()[n]));
                }
            }
            assert forall|a: AccountId| #[trigger]
                self.handle_map().contains_key(a) implies self.name_map().contains_key(
                self.handle_map()[a],
            ) && self.name_map()[self.handle_map()[a]] == a by {
                if a != *caller {
                    assert(before.handle_map().contains_key(a));
                    assert(before.name_map().contains_key(before.handle_map()[a]));
                }
            }
        }
        Ok(())
    }

    /// The account that claimed `username`, if one did.
    pub fn account_of(&self, username: &String) -> (found: Option<AccountId>)
        ensures
            found == (if self.name_map().contains_key(username@) {
                Some(self.name_map()[username@])
            } else {
                None
            }),
    {
        self.addresses.get(username)
    }

    /// The username that `account` claimed, if it claimed one.
    pub fn username_of(&self, account: &AccountId) -> (found: Option<String>)
        ensures
            found.is_some() == self.handle_map().contains_key(*account),
            found.is_some() ==> found.unwrap()@ == self.handle_map()[*account],
    {
        self.usernames.get(account)
    }
}

/// Usernames and accounts stand one to one in a well-formed state: two
/// usernames that find the same account are one username, and two accounts
/// that have the same username are one account.
pub proof fn lemma_names_one_to_one(
    state: Subscrypt,
    first: Seq<char>,
    second: Seq<char>,
    left: AccountId,
    right: AccountId,
)
    requires
        state.wf(),
    ensures
        state.name_map().contains_key(first) && state.name_map().contains_key(second)
            && state.name_map()[first] == state.name_map()[second] ==> first == second,
        state.handle_map().contains_key(left) && state.handle_map().contains_key(right)
            && state.handle_map()[left] == state.handle_map()[right] ==> left == right,
{
}

} // verus!
