//! A task per client that reads from it and writes to any client, where all tasks
//! share who is connected.
//!
//! Whoever runs the tasks reads and writes. It asks [`Server::handle_connection`]
//! what to do.

use crate::buffers::{content, unread};
use crate::identity::{draw, drawn};
use crate::message::{encode, is_body, leftover, messages, parse, parse_message};
use crate::message::{law_encoded_is_parsed, law_leftover_is_incomplete};
use crate::message::{law_one_at_a_time, law_parsed_is_encoded};
use crate::poll::ended;
use bytes::{Bytes, BytesMut};
use std::collections::HashMap;
use vstd::prelude::*;

pub mod promises;
pub mod runs;

verus! {

broadcast use vstd::std_specs::hash::group_hash_axioms;

/// A client that is read from.
pub struct Connection {
    /// The first thing that is written to the client, in network order.
    pub id: u32,
    /// What the client sent and no message was made of yet.
    pub buffer: BytesMut,
}

impl Connection {
    /// A client under the given ID.
    pub fn with_id(id: u32) -> (connection: Connection)
        ensures
            connection.id == id,
            unread(connection.buffer) == Seq::<u8>::empty(),
    {
        Connection { id, buffer: BytesMut::new() }
    }

    /// A client under a random ID.
    pub fn open() -> (connection: Connection)
        ensures
            drawn(connection.id),
            unread(connection.buffer) == Seq::<u8>::empty(),
    {
        Connection::with_id(draw())
    }
}

/// What a task does after a read.
pub enum Action {
    /// Read on.
    Read,
    /// Write all of the bytes to the client with this ID, and hand the outcome of the
    /// read in again.
    Forward(u32, Bytes),
    /// A message was for nobody: hand the outcome of the read in again.
    Skip,
    /// The client is gone: stop.
    Close,
}

/// What an [`Action`] says.
#[verifier::ext_equal]
pub enum ActionView {
    Read,
    Forward(u32, Seq<u8>),
    Skip,
    Close,
}

impl View for Action {
    type V = ActionView;

    open spec fn view(&self) -> ActionView {
        match *self {
            Action::Read => ActionView::Read,
            Action::Forward(dest, bytes) => ActionView::Forward(dest, content(bytes)),
            Action::Skip => ActionView::Skip,
            Action::Close => ActionView::Close,
        }
    }
}

/// The connected clients. `S` is a client's stream.
#[verifier::reject_recursive_types(S)]
pub struct Server<S> {
    pub connections: HashMap<u32, S>,
}

impl<S> View for Server<S> {
    type V = Map<u32, S>;

    open spec fn view(&self) -> Map<u32, S> {
        self.connections@
    }
}

/// What is done after a read from the client `id`, whose bytes so far are
/// `incoming`; who is connected then; and which of the bytes are left. A message
/// that is already whole comes first, and goes nowhere if its destination is not
/// connected. After that, a read that failed or came to the end of the stream ends
/// the connection.
pub open spec fn handled<S, E>(
    connections: Map<u32, S>,
    id: u32,
    incoming: Seq<u8>,
    outcome: Result<usize, E>,
) -> (ActionView, Map<u32, S>, Seq<u8>) {
    match parse(incoming) {
        Some((dest, payload, rest)) => (
            if connections.contains_key(dest) {
                ActionView::Forward(dest, payload)
            } else {
                ActionView::Skip
            },
            connections,
            rest,
        ),
        None => if ended(outcome) {
            (ActionView::Close, connections.remove(id), incoming)
        } else {
            (ActionView::Read, connections, incoming)
        },
    }
}

/// All that is forwarded after one read, to whom, until the task reads on or stops.
pub open spec fn forwarded<S, E>(
    connections: Map<u32, S>,
    id: u32,
    incoming: Seq<u8>,
    outcome: Result<usize, E>,
) -> Seq<(u32, Seq<u8>)>
    decreases incoming.len(),
{
    if parse(incoming) is Some {
        proof {
            law_parsed_is_encoded(incoming);
        }
        let (action, after, left) = handled(connections, id, incoming, outcome);
        (match action {
            ActionView::Forward(dest, payload) => seq![(dest, payload)],
            _ => seq![],
        }) + forwarded(after, id, left, outcome)
    } else {
        seq![]
    }
}

/// What is done after all that, who is connected then, and which of the bytes are
/// left.
pub open spec fn concluded<S, E>(
    connections: Map<u32, S>,
    id: u32,
    incoming: Seq<u8>,
    outcome: Result<usize, E>,
) -> (ActionView, Map<u32, S>, Seq<u8>)
    decreases incoming.len(),
{
    let (action, after, left) = handled(connections, id, incoming, outcome);
    if parse(incoming) is Some {
        proof {
            law_parsed_is_encoded(incoming);
        }
        concluded(after, id, left, outcome)
    } else {
        (action, after, left)
    }
}

impl<S> Server<S> {
    pub fn new() -> (server: Server<S>)
        ensures
            server@ == Map::<u32, S>::empty(),
    {
        Server { connections: HashMap::new() }
    }

    /// Connects a client that was told its ID.
    pub fn join(&mut self, connection: &Connection, socket: S)
        ensures
            final(self)@ == old(self)@.insert(connection.id, socket),
    {
        self.connections.insert(connection.id, socket);
    }

    /// Reacts to a read into the connection's buffer that gave `outcome`: the
    /// number of bytes that joined the buffer, none at the end of the stream. One
    /// message is taken at a time.
    pub fn handle_connection<E>(
        &mut self,
        connection: &mut Connection,
        outcome: Result<usize, E>,
    ) -> (action: Action)
        ensures
            (action@, final(self)@, unread(final(connection).buffer)) == handled(
                old(self)@,
                old(connection).id,
                unread(old(connection).buffer),
                outcome,
            ),
            final(connection).id == old(connection).id,
    {
        match parse_message(&mut connection.buffer) {
            Ok((dest, payload)) => if self.connections.contains_key(&dest) {
                Action::Forward(dest, payload)
            } else {
                Action::Skip
            },
            Err(_) => match outcome {
                Ok(n) if n != 0 => Action::Read,
                _ => {
                    self.connections.remove(&connection.id);
                    Action::Close
                },
            },
        }
    }
}

/// A whole message is forwarded to the client that it names, if that one is
/// connected: the body and its null byte, without the ID. What follows the message
/// stays to be read, and nobody comes or goes.
pub proof fn law_message_forwarded<S, E>(
    connections: Map<u32, S>,
    id: u32,
    outcome: Result<usize, E>,
    dest: u32,
    body: Seq<u8>,
    rest: Seq<u8>,
)
    requires
        is_body(body),
    ensures
        handled(connections, id, encode(dest, body) + rest, outcome) == (
            if connections.contains_key(dest) {
                ActionView::Forward(dest, body.push(0))
            } else {
                ActionView::Skip
            },
            connections,
            rest,
        ),
{
    law_encoded_is_parsed(dest, body, rest);
}

/// After a read every whole message that the client sent is forwarded, in order,
/// whatever came of the read, but for those to clients that are not connected. Only
/// then does the task read on or stop, and what is left holds no whole message.
pub proof fn law_every_message_forwarded<S, E>(
    connections: Map<u32, S>,
    id: u32,
    incoming: Seq<u8>,
    outcome: Result<usize, E>,
)
    ensures
        forwarded(connections, id, incoming, outcome) == messages(incoming).filter(
            |m: (u32, Seq<u8>)| connections.contains_key(m.0),
        ),
        concluded(connections, id, incoming, outcome) == match outcome {
            Ok(n) if n > 0 => (ActionView::Read, connections, leftover(incoming)),
            _ => (ActionView::Close, connections.remove(id), leftover(incoming)),
        },
        parse(leftover(incoming)) is None,
    decreases incoming.len(),
{
    law_one_at_a_time(incoming);
    law_leftover_is_incomplete(incoming);
    let known = |m: (u32, Seq<u8>)| connections.contains_key(m.0);
    reveal(Seq::filter);
    if let Some((dest, payload, rest)) = parse(incoming) {
        law_parsed_is_encoded(incoming);
        law_every_message_forwarded(connections, id, rest, outcome);
        let first = seq![(dest, payload)];
        assert(messages(incoming) =~= first + messages(rest));
        Seq::filter_distributes_over_add(first, messages(rest), known);
        assert(first.drop_last() =~= seq![]);
        assert(first.drop_last().filter(known) =~= seq![]);
        assert(first.filter(known) =~= if known((dest, payload)) {
            first
        } else {
            seq![]
        });
        assert(forwarded(connections, id, incoming, outcome) =~= messages(incoming).filter(known));
    } else {
        assert(messages(incoming).filter(known) =~= seq![]);
    }
}

/// A client that is gone leaves the others as if it had never come.
pub proof fn law_leaving_undoes_joining<S, E>(
    connections: Map<u32, S>,
    id: u32,
    socket: S,
    incoming: Seq<u8>,
    outcome: Result<usize, E>,
)
    requires
        !connections.contains_key(id),
        match outcome {
            Ok(n) => n == 0,
            Err(_) => true,
        },
    ensures
        concluded(connections.insert(id, socket), id, incoming, outcome).1 == connections,
{
    law_every_message_forwarded(connections.insert(id, socket), id, incoming, outcome);
    assert(connections.insert(id, socket).remove(id) =~= connections);
}

} // verus!
