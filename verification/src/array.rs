//! Arrays from vectors.
use vstd::prelude::*;

verus! {

/// `TryFrom<Vec<T>>` for arrays: succeeds where the length fits, with the same items.
#[verifier::external_body]
pub(crate) fn into_array<T, const N: usize>(items: Vec<T>) -> (r: [T; N])
    requires
        items@.len() == N,
    ensures
        r@ == items@,
{
    <[T; N]>::try_from(items).ok().unwrap()
}

} // verus!
