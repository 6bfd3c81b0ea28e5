//! The digest that guards a history.

use vstd::prelude::*;

verus! {

/// The SHA2-256 digest of the SCALE encoding of the pair of a token and a pass
/// phrase.
pub uninterp spec fn credential_digest(token: Seq<char>, pass_phrase: Seq<char>) -> [u8; 32];

/// Calls `ink_env::hash_encoded` with `ink_env::hash::Sha2x256` on the array of
/// the two strings. Trusted: the result is the digest named above, which
/// depends on the two strings alone.
#[verifier::external_body]
pub(crate) fn hash_credentials(token: &String, pass_phrase: &String) -> (digest: [u8; 32])
    ensures
        digest == credential_digest(token@, pass_phrase@),
{
    let encodable = [token.clone(), pass_phrase.clone()];
    let mut output = [0u8; 32];
    ink_env::hash_encoded::<ink_env::hash::Sha2x256, _>(&encodable, &mut output);
    output
}

} // verus!
