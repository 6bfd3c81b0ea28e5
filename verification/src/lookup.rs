//! Read access: single entries of the tables, checks of a secret, and the
//! histories that a user may retrieve.

use vstd::prelude::*;
use crate::account::{same_bytes, AccountId};
use crate::digest::{credential_digest, hash_credentials};
use crate::error::Error;
use crate::record::{DailyLockedAmount, PlanRecord, Provider, SubscriptionRecord, User, UserView};
use crate::state::Subscrypt;

verus! {

impl Subscrypt {
    /// The provider registered under `id`, if there is one.
    pub fn provider(&self, id: &AccountId) -> (found: Option<Provider>)
        ensures
            found.is_some() == self.provider_map().contains_key(*id),
            found.is_some() ==> found.unwrap()@ == self.provider_map()[*id],
    {
        self.providers.get(id)
    }

    /// The user known under `id`, if there is one.
    pub fn user(&self, id: &AccountId) -> (found: Option<User>)
        ensures
            found.is_some() == self.user_map().contains_key(*id),
            found.is_some() ==> found.unwrap()@ == self.user_map()[*id],
    {
        self.users.get(id)
    }

    /// The history of `user` with `provider` and the hash that guards it, if
    /// there is one.
    pub fn plan_record(&self, user: &AccountId, provider: &AccountId) -> (found: Option<PlanRecord>)
        ensures
            found.is_some() == self.record_map().contains_key((*user, *provider)),
            found.is_some() ==> found.unwrap()@ == self.record_map()[(*user, *provider)],
    {
        self.records.get(user, provider)
    }

    /// The place of the latest subscription of `user` to plan `plan_index` of
    /// `provider` in the history of the two, if the user ever subscribed to it.
    pub fn latest_place(&self, user: &AccountId, provider: &AccountId, plan_index: u128) -> (found:
        Option<u128>)
        ensures
            found == (if self.index_map().contains_key((*user, *provider, plan_index)) {
                Some(self.index_map()[(*user, *provider, plan_index)])
            } else {
                None
            }),
    {
        self.plan_index_to_record_index.get(user, provider, plan_index)
    }

    /// The escrow bucket of `provider` for `day_id`, if storage holds one.
    pub fn locked_on(&self, provider: &AccountId, day_id: u64) -> (found: Option<DailyLockedAmount>)
        ensures
            found == (if self.bucket_map().contains_key((*provider, day_id)) {
                Some(self.bucket_map()[(*provider, day_id)])
            } else {
                None
            }),
    {
        self.daily_locked_amounts.get(provider, day_id)
    }

    /// Why a new hash for the whole history is rejected, if it is: the caller
    /// is no user.
    pub open spec fn set_pass_error(self, caller: AccountId) -> Option<Error> {
        if !self.user_map().contains_key(caller) {
            Some(Error::UserNotFound)
        } else {
            None
        }
    }

    /// Sets the hash that guards the whole history of `caller` to `pass`.
    pub fn set_subscrypt_pass(&mut self, caller: &AccountId, pass: [u8; 32]) -> (done: Result<
        (),
        Error,
    >)
        requires
            old(self).wf(),
        ensures
            final(self).wf(),
            match done {
                Ok(_) => {
                    &&& old(self).set_pass_error(*caller) is None
                    &&& final(self).user_map() == old(self).user_map().insert(
                        *caller,
                        UserView {
                            subs_crypt_pass_hash: pass,
                            ..old(self).user_map()[*caller]
                        },
                    )
                    &&& final(self).start_time == old(self).start_time
                    &&& final(self).provider_register_fee == old(self).provider_register_fee
                    &&& final(self).providers == old(self).providers
                    &&& final(self).records == old(self).records
                    &&& final(self).plan_index_to_record_index == old(
                        self,
                    ).plan_index_to_record_index
                    &&& final(self).daily_locked_amounts == old(self).daily_locked_amounts
                    &&& final(self).same_names(*old(self))
                    &&& final(self).chains == old(self).chains
                },
                Err(e) => {
                    &&& old(self).set_pass_error(*caller) == Some(e)
                    &&& *final(self) == *old(self)
                },
            },
    {
        let mut user = match self.users.get(caller) {
            Some(user) => user,
            None => {
                return Err(Error::UserNotFound);
            },
        };
        user.subs_crypt_pass_hash = pass;
        self.users.insert(caller, &user);
        Ok(())
    }

    /// Whether `digest` is the hash that guards the history of `user` with
    /// `provider`. Without such a history the answer is no.
    pub fn check_auth_digest(&self, user: &AccountId, provider: &AccountId, digest: &[u8; 32]) -> (ok:
        bool)
        ensures
            ok == (self.record_map().contains_key((*user, *provider)) && self.record_map()[(
                *user,
                *provider,
            )].pass_hash == *digest),
    {
        match self.records.get(user, provider) {
            Some(history) => same_bytes(&history.pass_hash, digest),
            None => false,
        }
    }

    /// Whether `token` and `pass_phrase` hash to what guards the history of
    /// `user` with `provider`. Without such a history the answer is no.
    pub fn check_auth(
        &self,
        user: &AccountId,
        provider: &AccountId,
        token: String,
        pass_phrase: String,
    ) -> (ok: bool)
        ensures
            ok == (self.record_map().contains_key((*user, *provider)) && self.record_map()[(
                *user,
                *provider,
            )].pass_hash == credential_digest(token@, pass_phrase@)),
    {
        let digest = hash_credentials(&token, &pass_phrase);
        self.check_auth_digest(user, provider, &digest)
    }

    /// The histories of `user` with each of `providers`, one after the other.
    pub open spec fn whole_history(self, user: AccountId, providers: Seq<AccountId>) -> Seq<
        SubscriptionRecord,
    >
        decreases providers.len(),
    {
        if providers.len() == 0 {
            Seq::empty()
        } else {
            self.whole_history(user, providers.drop_last()) + self.history(user, providers.last())
        }
    }

    /// Storage holds a history of `user` with each of `providers`.
    pub open spec fn histories_present(self, user: AccountId, providers: Seq<AccountId>) -> bool {
        forall|i: int|
            0 <= i < providers.len() ==> self.record_map().contains_key(
                (user, #[trigger] providers[i]),
            )
    }

    /// Why the history with one provider is not handed out, if it is not: the
    /// caller is no user, or has no history with the provider.
    pub open spec fn retrieve_data_error(self, caller: AccountId, provider: AccountId) -> Option<
        Error,
    > {
        if !self.user_map().contains_key(caller) {
            Some(Error::UserNotFound)
        } else if !self.record_map().contains_key((caller, provider)) {
            Some(Error::NoHistory)
        } else {
            None
        }
    }

    /// The history of `caller` with `provider_address`.
    pub fn retrieve_data(&self, caller: &AccountId, provider_address: &AccountId) -> (data: Result<
        Vec<SubscriptionRecord>,
        Error,
    >)
        ensures
            match data {
                Ok(records) => {
                    &&& self.retrieve_data_error(*caller, *provider_address) is None
                    &&& records@ == self.history(*caller, *provider_address)
                },
                Err(e) => self.retrieve_data_error(*caller, *provider_address) == Some(e),
            },
    {
        if self.users.get(caller).is_none() {
            return Err(Error::UserNotFound);
        }
        match self.records.get(caller, provider_address) {
            Some(history) => Ok(history.subscription_records),
            None => Err(Error::NoHistory),
        }
    }

    /// Why the whole history is not handed out, if it is not: the caller is no
    /// user, or the history with one of its providers is missing.
    pub open spec fn retrieve_whole_data_error(self, caller: AccountId) -> Option<Error> {
        if !self.user_map().contains_key(caller) {
            Some(Error::UserNotFound)
        } else if !self.histories_present(caller, self.providers_of(caller)) {
            Some(Error::NoHistory)
        } else {
            None
        }
    }

    /// The histories of `caller` with all its providers, in the order in which
    /// it first subscribed to them.
    pub fn retrieve_whole_data(&self, caller: &AccountId) -> (data: Result<
        Vec<SubscriptionRecord>,
        Error,
    >)
        ensures
            match data {
                Ok(records) => {
                    &&& self.retrieve_whole_data_error(*caller) is None
                    &&& records@ == self.whole_history(*caller, self.providers_of(*caller))
                },
                Err(e) => self.retrieve_whole_data_error(*caller) == Some(e),
            },
    {
        let user = match self.users.get(caller) {
            Some(user) => user,
            None => {
                return Err(Error::UserNotFound);
            },
        };
        let ghost providers = self.providers_of(*caller);
        let mut data: Vec<SubscriptionRecord> = Vec::new();
        let mut i: usize = 0;
        while i < user.list_of_providers.len()
            invariant
                i <= user.list_of_providers.len(),
                providers == user.list_of_providers@,
                providers == self.providers_of(*caller),
                self.user_map().contains_key(*caller),
                data@ == self.whole_history(*caller, providers.take(i as int)),
                self.histories_present(*caller, providers.take(i as int)),
            decreases user.list_of_providers.len() - i,
        {
            let provider = user.list_of_providers[i];
            let mut history = match self.records.get(caller, &provider) {
                Some(history) => history,
                None => {
                    assert(!self.record_map().contains_key((*caller, providers[i as int])));
                    return Err(Error::NoHistory);
                },
            };
            data.append(&mut history.subscription_records);
            i += 1;
            proof {
                assert(providers.take(i as int).drop_last() =~= providers.take(i - 1));
                assert forall|j: int| 0 <= j < i implies self.record_map().contains_key(
                    (*caller, #[trigger] providers.take(i as int)[j]),
                ) by {
                    if j < i - 1 {
                        assert(providers.take(i - 1)[j] == providers[j]);
                    }
                }
            }
        }
        assert(providers.take(i as int) =~= providers);
        Ok(data)
    }

    /// The histories of the caller with all its providers, for a caller that
    /// is known by its wallet.
    pub fn retrieve_whole_data_with_wallet(&self, caller: &AccountId) -> (data: Result<
        Vec<SubscriptionRecord>,
        Error,
    >)
        ensures
            match data {
                Ok(records) => {
                    &&& self.retrieve_whole_data_error(*caller) is None
                    &&& records@ == self.whole_history(*caller, self.providers_of(*caller))
                },
                Err(e) => self.retrieve_whole_data_error(*caller) == Some(e),
            },
    {
        self.retrieve_whole_data(caller)
    }

    /// The history of the caller with `provider_address`, for a caller that is
    /// known by its wallet.
    pub fn retrieve_data_with_wallet(&self, caller: &AccountId, provider_address: &AccountId) -> (data:
        Result<Vec<SubscriptionRecord>, Error>)
        ensures
            match data {
                Ok(records) => {
                    &&& self.retrieve_data_error(*caller, *provider_address) is None
                    &&& records@ == self.history(*caller, *provider_address)
                },
                Err(e) => self.retrieve_data_error(*caller, *provider_address) == Some(e),
            },
    {
        self.retrieve_data(caller, provider_address)
    }

    /// Why the whole history is not handed out against a digest, if it is not.
    /// The reasons are tried in this order: an unknown user, a digest that is
    /// not the user's hash, a missing history.
    pub open spec fn whole_data_digest_error(self, user: AccountId, digest: [u8; 32]) -> Option<
        Error,
    > {
        if !self.user_map().contains_key(user) {
            Some(Error::UserNotFound)
        } else if self.user_map()[user].subs_crypt_pass_hash != digest {
            Some(Error::WrongAuth)
        } else {
            self.retrieve_whole_data_error(user)
        }
    }

    /// The histories of `user` with all its providers, for a caller that shows
    /// the digest that guards them.
    pub fn retrieve_whole_data_with_digest(&self, user: &AccountId, digest: &[u8; 32]) -> (data:
        Result<Vec<SubscriptionRecord>, Error>)
        ensures
            match data {
                Ok(records) => {
                    &&& self.whole_data_digest_error(*user, *digest) is None
                    &&& records@ == self.whole_history(*user, self.providers_of(*user))
                },
                Err(e) => self.whole_data_digest_error(*user, *digest) == Some(e),
            },
    {
        let known = match self.users.get(user) {
            Some(known) => known,
            None => {
                return Err(Error::UserNotFound);
            },
        };
        if !same_bytes(&known.subs_crypt_pass_hash, digest) {
            return Err(Error::WrongAuth);
        }
        self.retrieve_whole_data(user)
    }

    /// The histories of `user` with all its providers, for a caller that knows
    /// the token and the phrase whose digest guards them.
    pub fn retrieve_whole_data_with_password(&self, user: &AccountId, token: String, phrase: String) -> (data:
        Result<Vec<SubscriptionRecord>, Error>)
        ensures
            match data {
                Ok(records) => {
                    &&& self.whole_data_digest_error(*user, credential_digest(token@, phrase@))
                        is None
                    &&& records@ == self.whole_history(*user, self.providers_of(*user))
                },
                Err(e) => self.whole_data_digest_error(*user, credential_digest(token@, phrase@))
                    == Some(e),
            },
    {
        let digest = hash_credentials(&token, &phrase);
        self.retrieve_whole_data_with_digest(user, &digest)
    }

    /// Why the history with one provider is not handed out against a digest,
    /// if it is not. The reasons are tried in this order: no history with the
    /// provider, a digest that is not the history's hash, an unknown user.
    pub open spec fn data_digest_error(
        self,
        user: AccountId,
        provider: AccountId,
        digest: [u8; 32],
    ) -> Option<Error> {
        if !self.record_map().contains_key((user, provider)) {
            Some(Error::NoHistory)
        } else if self.record_map()[(user, provider)].pass_hash != digest {
            Some(Error::WrongAuth)
        } else {
            self.retrieve_data_error(user, provider)
        }
    }

    /// The history of `user` with `provider_address`, for a caller that shows
    /// the digest that guards it.
    pub fn retrieve_data_with_digest(
        &self,
        user: &AccountId,
        provider_address: &AccountId,
        digest: &[u8; 32],
    ) -> (data: Result<Vec<SubscriptionRecord>, Error>)
        ensures
            match data {
                Ok(records) => {
                    &&& self.data_digest_error(*user, *provider_address, *digest) is None
                    &&& records@ == self.history(*user, *provider_address)
                },
                Err(e) => self.data_digest_error(*user, *provider_address, *digest) == Some(e),
            },
    {
        let history = match self.records.get(user, provider_address) {
            Some(history) => history,
            None => {
                return Err(Error::NoHistory);
            },
        };
        if !same_bytes(&history.pass_hash, digest) {
            return Err(Error::WrongAuth);
        }
        self.retrieve_data(user, provider_address)
    }

    /// The history of `user` with `provider_address`, for a caller that knows
    /// the token and the phrase whose digest guards it.
    pub fn retrieve_data_with_password(
        &self,
        user: &AccountId,
        provider_address: &AccountId,
        token: String,
        phrase: String,
    ) -> (data: Result<Vec<SubscriptionRecord>, Error>)
        ensures
            match data {
                Ok(records) => {
                    &&& self.data_digest_error(
                        *user,
                        *provider_address,
                        credential_digest(token@, phrase@),
                    ) is None
                    &&& records@ == self.history(*user, *provider_address)
                },
                Err(e) => self.data_digest_error(
                    *user,
                    *provider_address,
                    credential_digest(token@, phrase@),
                ) == Some(e),
            },
    {
        let digest = hash_credentials(&token, &phrase);
        self.retrieve_data_with_digest(user, provider_address, &digest)
    }
}

} // verus!
