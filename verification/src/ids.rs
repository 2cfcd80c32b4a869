//! Fresh identifiers for tasks and modules.

use vstd::prelude::*;

verus! {

/// `id` is a value that a draw (`new_v4_id`) returned.
pub closed spec fn drawn_id(id: u128) -> bool {
    call_ensures(new_v4_id, (), id)
}

/// A value that `new_v4_id` returned is a drawn id.
pub(crate) proof fn lemma_drawn_id(id: u128)
    requires
        call_ensures(new_v4_id, (), id),
    ensures
        drawn_id(id),
{
}

/// Draws a random version-4 UUID with `uuid::Uuid::new_v4` and returns its
/// 128-bit value (`Uuid::as_u128`, most significant byte first). The value
/// is random; the contract only states the version nibble (4) and the
/// RFC 4122 variant bits (binary 10), which `new_v4` always sets. The call
/// panics if the operating system cannot supply random bytes; nothing here
/// rules that out.
#[verifier::external_body]
pub(crate) fn new_v4_id() -> (id: u128)
    ensures
        (id >> 76u128) & 0xfu128 == 4,
        (id >> 62u128) & 0x3u128 == 2,
{
    uuid::Uuid::new_v4().as_u128()
}

} // verus!
