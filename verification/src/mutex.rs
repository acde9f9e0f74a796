//! A task per client that reads from it and writes to any client, with the writing
//! halves of all clients in one list behind a lock.
//!
//! Whoever runs the tasks locks, reads and writes. It asks
//! [`Server::handle_connection`] what to forward.

use crate::buffers::{content, unread};
use crate::message::{parse, parse_message};
use bytes::{Bytes, BytesMut};
use vstd::prelude::*;

pub mod promises;
pub mod runs;

verus! {

/// The connected clients. A client's ID is its place among them, and `W` is what
/// is written to.
pub struct Server<W> {
    pub connections: Vec<W>,
}

impl<W> View for Server<W> {
    type V = Seq<W>;

    open spec fn view(&self) -> Seq<W> {
        self.connections@
    }
}

impl<W> Server<W> {
    pub fn new() -> (server: Server<W>)
        ensures
            server@ == Seq::<W>::empty(),
    {
        Server { connections: Vec::new() }
    }

    /// The ID that the next client gets, which is the first thing that is written
    /// to it.
    pub fn next_id(&self) -> (id: u32)
        ensures
            id == self@.len() as u32,
    {
        self.connections.len() as u32
    }

    /// Connects a client that was told its ID.
    pub fn join(&mut self, write: W)
        ensures
            final(self)@ == old(self)@.push(write),
    {
        self.connections.push(write);
    }

    /// Makes a message of what a client sent, where it sent a whole one: its
    /// destination, and the bytes to write to it. `n` bytes joined the buffer, and
    /// clients do not leave, so there are some. One message is taken at a time, and
    /// the client is read from again once there is none: all of its messages were
    /// taken then ([`crate::message::law_taken_until_none`]).
    pub fn handle_connection(&self, buffer: &mut BytesMut, n: usize) -> (forward: Option<
        (u32, Bytes),
    >)
        requires
            n != 0,
        ensures
            match forward {
                Some((dest, bytes)) => parse(unread(*old(buffer))) == Some(
                    (dest, content(bytes), unread(*final(buffer))),
                ),
                None => {
                    &&& parse(unread(*old(buffer))) is None
                    &&& *final(buffer) == *old(buffer)
                },
            },
    {
        match parse_message(buffer) {
            Ok((dest, bytes)) => Some((dest, bytes)),
            Err(_) => None,
        }
    }

    /// What to write to for the client with the given ID.
    pub fn writer(&mut self, dest: u32) -> (write: &mut W)
        requires
            dest < old(self)@.len(),
        ensures
            *write == old(self)@[dest as int],
            final(self)@ == old(self)@.update(dest as int, *final(write)),
    {
        &mut self.connections[dest as usize]
    }
}

/// The clients once each of `writes` joined, one after the other, and the IDs that they
/// were told.
pub open spec fn registered<W>(connections: Seq<W>, writes: Seq<W>) -> (Seq<W>, Seq<u32>)
    decreases writes.len(),
{
    if writes.len() == 0 {
        (connections, seq![])
    } else {
        let (before, ids) = registered(connections, writes.drop_last());
        (before.push(writes.last()), ids.push(before.len() as u32))
    }
}

/// However many clients join, the `k`-th is told `k` and stands at place `k`, and
/// everyone who was there before keeps theirs. So each is the one that is written to
/// under its ID, and IDs differ and leave no gap, as long as they have not run out: an ID
/// has four bytes.
pub proof fn law_ids_are_places<W>(connections: Seq<W>, writes: Seq<W>)
    ensures
        ({
            let (after, ids) = registered(connections, writes);
            &&& after == connections + writes
            &&& ids.len() == writes.len()
            &&& forall|k: int|
                0 <= k < ids.len() ==> {
                    &&& #[trigger] ids[k] == (connections.len() + k) as u32
                    &&& after[connections.len() + k] == writes[k]
                }
            &&& forall|k: int|
                0 <= k < ids.len() && connections.len() + k <= u32::MAX ==> {
                    &&& #[trigger] ids[k] == connections.len() + k
                    &&& after[ids[k] as int] == writes[k]
                }
        }),
    decreases writes.len(),
{
    if writes.len() == 0 {
        assert(connections + writes =~= connections);
    } else {
        law_ids_are_places(connections, writes.drop_last());
        assert(connections + writes =~= (connections + writes.drop_last()).push(writes.last()));
    }
}

} // verus!
