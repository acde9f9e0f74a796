//! A task per client that reads from it and writes to any client, with each client's
//! stream behind a lock of its own.
//!
//! Whoever runs the tasks locks, reads and writes. It asks
//! [`Router::handle_connection`] what to forward.

use crate::buffers::{content, unread};
use crate::history::Step;
use crate::message::{parse, parse_message};
use crate::mutex;
use crate::mutex::runs::{chained, forwarded, Tasks};
use bytes::{Bytes, BytesMut};
use vstd::prelude::*;

pub mod promises;

verus! {

/// The connected clients. A client's ID is its place among them, and `S` is its
/// stream.
pub struct Router<S> {
    pub connections: Vec<S>,
}

impl<S> View for Router<S> {
    type V = Seq<S>;

    open spec fn view(&self) -> Seq<S> {
        self.connections@
    }
}

impl<S> Router<S> {
    pub fn new() -> (router: Router<S>)
        ensures
            router@ == Seq::<S>::empty(),
    {
        Router { connections: Vec::new() }
    }

    /// Connects a client. Its ID is the first thing that is written to it.
    pub fn join(&mut self, socket: S) -> (id: u32)
        ensures
            final(self)@ == old(self)@.push(socket),
            id == old(self)@.len() as u32,
    {
        self.connections.push(socket);
        (self.connections.len() - 1) as u32
    }

    /// Makes a message of what a client sent, where it sent a whole one: its
    /// destination, and the bytes to write to it. `n` bytes joined the buffer, and
    /// clients do not leave, so there are some. One message is taken at a time, and
    /// the client is read from again once there is none: all of its messages were
    /// taken then ([`crate::message::law_taken_until_none`]).
    pub fn handle_connection(&self, buffer: &mut BytesMut, n: usize) -> (forward: Option<
        (u32, Bytes),
    >)
        requires
            n != 0,
        ensures
            match forward {
                Some((dest, bytes)) => parse(unread(*old(buffer))) == Some(
                    (dest, content(bytes), unread(*final(buffer))),
                ),
                None => {
                    &&& parse(unread(*old(buffer))) is None
                    &&& *final(buffer) == *old(buffer)
                },
            },
    {
        match parse_message(buffer) {
            Ok((dest, bytes)) => Some((dest, bytes)),
            Err(_) => None,
        }
    }

    /// The stream of the client with the given ID.
    pub fn socket(&self, dest: u32) -> (socket: &S)
        requires
            dest < self@.len(),
        ensures
            *socket == self@[dest as int],
    {
        &self.connections[dest as usize]
    }
}

/// The clients once each of `sockets` joined, one after the other, and the IDs that they
/// were told.
pub open spec fn registered<S>(connections: Seq<S>, sockets: Seq<S>) -> (Seq<S>, Seq<u32>) {
    mutex::registered(connections, sockets)
}

/// However many clients join, the `k`-th is told `k` and stands at place `k`, and
/// everyone who was there before keeps theirs. So each is the one that is written to
/// under its ID, and IDs differ and leave no gap, as long as they have not run out: an ID
/// has four bytes.
pub proof fn law_ids_are_places<S>(connections: Seq<S>, sockets: Seq<S>)
    ensures
        ({
            let (after, ids) = registered(connections, sockets);
            &&& after == connections + sockets
            &&& ids.len() == sockets.len()
            &&& forall|k: int|
                0 <= k < ids.len() ==> {
                    &&& #[trigger] ids[k] == (connections.len() + k) as u32
                    &&& after[connections.len() + k] == sockets[k]
                }
            &&& forall|k: int|
                0 <= k < ids.len() && connections.len() + k <= u32::MAX ==> {
                    &&& #[trigger] ids[k] == connections.len() + k
                    &&& after[ids[k] as int] == sockets[k]
                }
        }),
{
    mutex::law_ids_are_places(connections, sockets);
}

/// Over any run of a router: what is handed out to be written to a client is first its
/// ID in network order, and then what exactly the messages for it carried, whole and in
/// the order in which they were taken. What was taken off a client, followed by what
/// waits in its buffer, is exactly the messages that it sent, in order. Which of two tasks
/// that are to write to one client gets its stream first is not decided here; each task
/// writes one message before it takes the next.
pub proof fn law_whole_run<S>(states: Seq<Tasks<S>>, steps: Seq<Step>)
    requires
        chained(states, steps),
        states[0] == Tasks::<S>::none(),
    ensures
        forall|id: u32| #[trigger] forwarded(steps, states.last(), id),
{
    mutex::runs::law_whole_run(states, steps);
}

} // verus!
