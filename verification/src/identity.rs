//! The IDs that clients are known by.

use crate::buffers::{bytes_of, content};
use crate::wire::{law_most_significant_first, network_bytes, to_network};
use bytes::Bytes;
use rand::Rng;
use vstd::prelude::*;

verus! {

/// `rand::rng().random()`: a random ID. Any `u32` may come back, so nothing is
/// claimed of it.
#[verifier::external_body]
pub(crate) fn random_id() -> (id: u32) {
    rand::rng().random()
}

/// The random source gave `id`: it is the result of a call of the generator, and of
/// nothing else.
pub closed spec fn drawn(id: u32) -> bool {
    call_ensures(random_id, (), id)
}

/// What is called drawn came out of the random source.
pub(crate) proof fn law_drawn_is_random(id: u32)
    requires
        drawn(id),
    ensures
        call_ensures(random_id, (), id),
{
}

/// A random ID, for a client that connects.
pub(crate) fn draw() -> (id: u32)
    ensures
        drawn(id),
{
    random_id()
}

/// A client is sent the ID that it is kept under, most significant byte first.
pub proof fn law_greeting_is_the_id(id: u32, bytes: Bytes)
    requires
        call_ensures(greeting, (id,), bytes),
    ensures
        content(bytes).len() == 4,
        content(bytes)[0] * 0x100_0000 + content(bytes)[1] * 0x1_0000 + content(bytes)[2] * 0x100
            + content(bytes)[3] == id,
{
    law_most_significant_first(id);
}

/// What a client is sent as soon as it is connected: its ID in network order.
pub fn greeting(id: u32) -> (bytes: Bytes)
    ensures
        content(bytes) == network_bytes(id),
{
    bytes_of(to_network(id))
}

} // verus!
