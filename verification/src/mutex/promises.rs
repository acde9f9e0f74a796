//! What a caller can count on of each function, in terms of what is read and written.

use super::Server;
use crate::buffers::{content, unread};
use crate::message::law_message_in_bytes;
use bytes::{Bytes, BytesMut};
use vstd::prelude::*;

verus! {

/// Nobody is connected at first.
pub proof fn law_new<W>(server: Server<W>)
    requires
        call_ensures(Server::<W>::new, (), server),
    ensures
        server.connections@.len() == 0,
{
}

/// However many clients are connected, the next one is told how many there are, and that is
/// the place at which it then stands. Nobody else changes place.
pub proof fn law_told_its_place<W>(server: &mut Server<W>, id: u32, write: W)
    requires
        call_ensures(Server::<W>::next_id, (&*old(server),), id),
        call_ensures(Server::<W>::join, (server, write), ()),
    ensures
        final(server).connections@.len() == old(server).connections@.len() + 1,
        final(server).connections@[old(server).connections@.len() as int] == write,
        old(server).connections@.len() <= u32::MAX ==> {
            &&& id == old(server).connections@.len()
            &&& final(server).connections@[id as int] == write
        },
        forall|i: int|
            0 <= i < old(server).connections@.len() ==> #[trigger] final(server).connections@[i]
                == old(server).connections@[i],
{
}

/// The IDs that are told to clients that join one after the other are one apart, so that no
/// two clients are told the same, until the four bytes of an ID are exhausted.
pub proof fn law_next_id_counts<W>(server: &mut Server<W>, id: u32, write: W, next: u32)
    requires
        call_ensures(Server::<W>::next_id, (&*old(server),), id),
        call_ensures(Server::<W>::join, (server, write), ()),
        call_ensures(Server::<W>::next_id, (&*final(server),), next),
        old(server).connections@.len() < u32::MAX,
    ensures
        next == id + 1,
{
}

/// A whole message is taken off the front of what the client sent: it is for the client that
/// its first four bytes name, and its bytes are those after these, up to the first null
/// byte. Where there is no such byte, nothing is taken, and all that the client sent is
/// still there.
pub proof fn law_whole_message_is_handed_on<W>(
    server: &Server<W>,
    buffer: &mut BytesMut,
    n: usize,
    forward: Option<(u32, Bytes)>,
)
    requires
        call_ensures(Server::<W>::handle_connection, (server, buffer, n), forward),
    ensures
        forward is Some <==> exists|i: int|
            4 <= i < unread(*old(buffer)).len() && unread(*old(buffer))[i] == 0,
        match forward {
            Some((dest, bytes)) => {
                let sent = unread(*old(buffer));
                let handed = content(bytes);
                &&& sent[0] * 0x100_0000 + sent[1] * 0x1_0000 + sent[2] * 0x100 + sent[3] == dest
                &&& handed + unread(*final(buffer)) == sent.skip(4)
                &&& handed.len() > 0
                &&& handed[handed.len() - 1] == 0
                &&& forall|i: int| 0 <= i < handed.len() - 1 ==> handed[i] != 0
            },
            None => unread(*final(buffer)) == unread(*old(buffer)),
        },
{
    law_message_in_bytes(unread(*old(buffer)));
}

/// What is written to under an ID is what joined at that place, and writing to it changes
/// nobody else's.
pub proof fn law_writer_is_at_its_place<W>(server: &mut Server<W>, dest: u32, write: &mut W)
    requires
        call_ensures(Server::<W>::writer, (server, dest), write),
        dest < old(server).connections@.len(),
    ensures
        *old(write) == old(server).connections@[dest as int],
        final(server).connections@.len() == old(server).connections@.len(),
        final(server).connections@[dest as int] == *final(write),
        forall|i: int|
            0 <= i < old(server).connections@.len() && i != dest ==> #[trigger] final(
                server
            ).connections@[i] == old(server).connections@[i],
{
}

} // verus!
