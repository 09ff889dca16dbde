//! The random number generator of the operating system.
use vstd::prelude::*;

verus! {

/// `getrandom::fill`: fills the buffer with random bytes of the system. What
/// the bytes are, and whether the system delivers them, is not said.
#[verifier::external_body]
pub fn fill_random(page: &mut Vec<u8>) -> (r: Result<(), anyhow::Error>)
    ensures
        final(page)@.len() == old(page)@.len(),
{
    getrandom::fill(page).map_err(anyhow::Error::msg)
}

} // verus!
