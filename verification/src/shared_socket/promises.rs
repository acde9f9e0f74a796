//! What a caller can count on of each function, in terms of what is read and written.

use super::Router;
use crate::buffers::{content, unread};
use crate::message::law_message_in_bytes;
use bytes::{Bytes, BytesMut};
use vstd::prelude::*;

verus! {

/// Nobody is connected at first.
pub proof fn law_new<S>(router: Router<S>)
    requires
        call_ensures(Router::<S>::new, (), router),
    ensures
        router.connections@.len() == 0,
{
}

/// However many clients are connected, the next one is told how many there were, and that is
/// the place at which it stands. Nobody else changes place.
pub proof fn law_told_its_place<S>(router: &mut Router<S>, socket: S, id: u32)
    requires
        call_ensures(Router::<S>::join, (router, socket), id),
    ensures
        final(router).connections@.len() == old(router).connections@.len() + 1,
        final(router).connections@[old(router).connections@.len() as int] == socket,
        old(router).connections@.len() <= u32::MAX ==> {
            &&& id == old(router).connections@.len()
            &&& final(router).connections@[id as int] == socket
        },
        forall|i: int|
            0 <= i < old(router).connections@.len() ==> #[trigger] final(router).connections@[i]
                == old(router).connections@[i],
{
}

/// A whole message is taken off the front of what the client sent: it is for the client that
/// its first four bytes name, and its bytes are those after these, up to the first null
/// byte. Where there is no such byte, nothing is taken, and all that the client sent is
/// still there.
pub proof fn law_whole_message_is_handed_on<S>(
    router: &Router<S>,
    buffer: &mut BytesMut,
    n: usize,
    forward: Option<(u32, Bytes)>,
)
    requires
        call_ensures(Router::<S>::handle_connection, (router, buffer, n), forward),
    ensures
        forward is Some <==> exists|i: int|
            4 <= i < unread(*old(buffer)).len() && unread(*old(buffer))[i] == 0,
        match forward {
            Some((dest, bytes)) => {
                let sent = unread(*old(buffer));
                let handed = content(bytes);
                &&& sent[0] * 0x100_0000 + sent[1] * 0x1_0000 + sent[2] * 0x100 + sent[3] == dest
                &&& handed + unread(*final(buffer)) == sent.skip(4)
                &&& handed.len() > 0
                &&& handed[handed.len() - 1] == 0
                &&& forall|i: int| 0 <= i < handed.len() - 1 ==> handed[i] != 0
            },
            None => unread(*final(buffer)) == unread(*old(buffer)),
        },
{
    law_message_in_bytes(unread(*old(buffer)));
}

/// What is written to under an ID is the stream of the client that was told that ID.
pub proof fn law_socket_is_who_was_told<S>(
    router: &mut Router<S>,
    socket: S,
    id: u32,
    found: &S,
)
    requires
        call_ensures(Router::<S>::join, (router, socket), id),
        call_ensures(Router::<S>::socket, (&*final(router), id), found),
        old(router).connections@.len() <= u32::MAX,
    ensures
        *found == socket,
{
}

/// What is written to under an ID is the stream that joined at that place.
pub proof fn law_socket_is_at_its_place<S>(router: &Router<S>, dest: u32, found: &S)
    requires
        call_ensures(Router::<S>::socket, (router, dest), found),
        dest < router.connections@.len(),
    ensures
        *found == router.connections@[dest as int],
{
}

} // verus!
