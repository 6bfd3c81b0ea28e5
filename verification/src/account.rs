//! Account identities, and the comparison of 32-byte values.

use vstd::prelude::*;

verus! {

/// A 32-byte account identity. The library never looks inside one: it is a key
/// under which state is filed and a destination for payments.
#[derive(Clone, Copy, Debug, PartialEq, Eq)]
pub struct AccountId {
    pub bytes: [u8; 32],
}

impl AccountId {
    /// The identity made of the given bytes.
    pub fn new(bytes: [u8; 32]) -> (id: AccountId)
        ensures
            id.bytes == bytes,
    {
        AccountId { bytes }
    }
}

/// Whether two arrays hold the same 32 bytes.
pub fn same_bytes(left: &[u8; 32], right: &[u8; 32]) -> (same: bool)
    ensures
        same == (*left == *right),
{
    let mut i: usize = 0;
    while i < 32
        invariant
            i <= 32,
            forall|j: int| 0 <= j < i ==> left[j] == right[j],
        decreases 32 - i,
    {
        if left[i] != right[i] {
            return false;
        }
        i += 1;
    }
    assert(*left =~= *right);
    true
}

} // verus!
