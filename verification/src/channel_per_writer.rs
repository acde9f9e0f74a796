//! A task per client that reads from it, a task per client that writes to it, and
//! one task between them that knows who is connected. They talk through channels.
//!
//! Whoever runs the tasks reads, writes and passes the messages on. It asks
//! [`Connection::handle_connection`], [`Dispatcher::central_dispatcher`] and
//! [`client_dispatcher`] what to do.

use crate::buffers::{content, unread};
use crate::identity::{draw, drawn, greeting};
use crate::message::{encode, is_body, leftover, messages, parse, parse_message};
use crate::message::{law_encoded_is_parsed, law_leftover_is_incomplete};
use crate::message::{law_one_at_a_time, law_parsed_is_encoded};
use crate::poll::ended;
use crate::wire::network_bytes;
use bytes::{Bytes, BytesMut};
use std::collections::HashMap;
use vstd::prelude::*;

pub mod promises;
pub mod runs;

verus! {

broadcast use vstd::std_specs::hash::group_hash_axioms;

/// How many messages a channel holds before its sender has to wait.
pub const CHANNEL_CAPACITY: usize = 100;

/// What the reading tasks tell the dispatcher. `W` is what is written to.
pub enum Message<W> {
    /// A client connected under this ID.
    New(u32, W),
    /// The bytes are for the client with this ID.
    Send(u32, Bytes),
    /// The client with this ID is gone.
    Disconnect(u32),
}

/// What a [`Message`] says.
#[verifier::ext_equal]
pub enum MessageView<W> {
    New(u32, W),
    Send(u32, Seq<u8>),
    Disconnect(u32),
}

impl<W> View for Message<W> {
    type V = MessageView<W>;

    open spec fn view(&self) -> MessageView<W> {
        match *self {
            Message::New(id, writer) => MessageView::New(id, writer),
            Message::Send(id, bytes) => MessageView::Send(id, content(bytes)),
            Message::Disconnect(id) => MessageView::Disconnect(id),
        }
    }
}

/// A client that is read from.
pub struct Connection {
    pub id: u32,
    /// What the client sent and no message was made of yet.
    pub buffer: BytesMut,
}

/// What a reading task does after a read.
pub enum Reply<W> {
    /// Read on.
    Read,
    /// Tell the dispatcher, and hand the outcome of the read in again.
    Tell(Message<W>),
    /// Tell the dispatcher, and stop.
    Stop(Message<W>),
}

/// What a [`Reply`] says.
#[verifier::ext_equal]
pub enum ReplyView<W> {
    Read,
    Tell(MessageView<W>),
    Stop(MessageView<W>),
}

impl<W> View for Reply<W> {
    type V = ReplyView<W>;

    open spec fn view(&self) -> ReplyView<W> {
        match *self {
            Reply::Read => ReplyView::Read,
            Reply::Tell(message) => ReplyView::Tell(message@),
            Reply::Stop(message) => ReplyView::Stop(message@),
        }
    }
}

/// What the client `id`, whose bytes so far are `incoming`, is answered to a read,
/// and which of the bytes are left. A message that is already whole comes first.
/// After that, a read that failed or came to the end of the stream ends the
/// connection.
pub open spec fn replied<W, E>(id: u32, incoming: Seq<u8>, outcome: Result<usize, E>) -> (
    ReplyView<W>,
    Seq<u8>,
) {
    match parse(incoming) {
        Some((dest, payload, rest)) => (ReplyView::Tell(MessageView::Send(dest, payload)), rest),
        None => (
            if ended(outcome) {
                ReplyView::Stop(MessageView::Disconnect(id))
            } else {
                ReplyView::Read
            },
            incoming,
        ),
    }
}

/// All that the dispatcher is told after one read, until the answer is to read on or
/// to stop.
pub open spec fn told<W, E>(id: u32, incoming: Seq<u8>, outcome: Result<usize, E>) -> Seq<
    MessageView<W>,
>
    decreases incoming.len(),
{
    match replied::<W, E>(id, incoming, outcome) {
        (ReplyView::Tell(message), left) => {
            proof {
                law_parsed_is_encoded(incoming);
            }
            seq![message] + told(id, left, outcome)
        },
        _ => seq![],
    }
}

/// The answer after all that, and which of the bytes are left then.
pub open spec fn concluded<W, E>(id: u32, incoming: Seq<u8>, outcome: Result<usize, E>) -> (
    ReplyView<W>,
    Seq<u8>,
)
    decreases incoming.len(),
{
    match replied::<W, E>(id, incoming, outcome) {
        (ReplyView::Tell(_), left) => {
            proof {
                law_parsed_is_encoded(incoming);
            }
            concluded(id, left, outcome)
        },
        answer => answer,
    }
}

impl Connection {
    /// A client under the given ID, and what the dispatcher is told of it.
    pub fn with_id<W>(id: u32, write: W) -> (opened: (Connection, Message<W>))
        ensures
            opened.0.id == id,
            unread(opened.0.buffer) == Seq::<u8>::empty(),
            opened.1@ == MessageView::New(id, write),
    {
        (Connection { id, buffer: BytesMut::new() }, Message::New(id, write))
    }

    /// A client under a random ID, and what the dispatcher is told of it.
    pub fn open<W>(write: W) -> (opened: (Connection, Message<W>))
        ensures
            drawn(opened.0.id),
            unread(opened.0.buffer) == Seq::<u8>::empty(),
            opened.1@ == MessageView::New(opened.0.id, write),
    {
        Connection::with_id(draw(), write)
    }

    /// Reacts to a read into the buffer that gave `outcome`: the number of bytes
    /// that joined the buffer, none at the end of the stream. The dispatcher is told
    /// of one message at a time.
    pub fn handle_connection<W, E>(&mut self, outcome: Result<usize, E>) -> (reply: Reply<W>)
        ensures
            (reply@, unread(final(self).buffer)) == replied::<W, E>(
                old(self).id,
                unread(old(self).buffer),
                outcome,
            ),
            final(self).id == old(self).id,
    {
        match parse_message(&mut self.buffer) {
            Ok((dest, payload)) => Reply::Tell(Message::Send(dest, payload)),
            Err(_) => match outcome {
                Ok(n) if n != 0 => Reply::Read,
                _ => Reply::Stop(Message::Disconnect(self.id)),
            },
        }
    }
}

/// Who is connected. `T` is what the client's writing task is sent bytes through,
/// `H` what stops that task.
#[verifier::reject_recursive_types(T)]
#[verifier::reject_recursive_types(H)]
pub struct Dispatcher<T, H> {
    pub connections: HashMap<u32, (T, H)>,
}

impl<T, H> View for Dispatcher<T, H> {
    type V = Map<u32, (T, H)>;

    open spec fn view(&self) -> Map<u32, (T, H)> {
        self.connections@
    }
}

/// What the dispatcher does with a message.
pub enum DispatchAction<W, H> {
    /// Wait for the next message.
    Receive,
    /// Start a writing task for this client, send it these bytes first, and hand it
    /// to [`Dispatcher::connect`].
    Spawn(u32, W, Bytes),
    /// Send the bytes to the writing task of the client with this ID.
    Forward(u32, Bytes),
    /// Stop this writing task.
    Abort(H),
    /// There are no more messages.
    Stop,
}

/// What a [`DispatchAction`] says.
#[verifier::ext_equal]
pub enum DispatchActionView<W, H> {
    Receive,
    Spawn(u32, W, Seq<u8>),
    Forward(u32, Seq<u8>),
    Abort(H),
    Stop,
}

impl<W, H> View for DispatchAction<W, H> {
    type V = DispatchActionView<W, H>;

    open spec fn view(&self) -> DispatchActionView<W, H> {
        match *self {
            DispatchAction::Receive => DispatchActionView::Receive,
            DispatchAction::Spawn(id, writer, bytes) => DispatchActionView::Spawn(
                id,
                writer,
                content(bytes),
            ),
            DispatchAction::Forward(id, bytes) => DispatchActionView::Forward(id, content(bytes)),
            DispatchAction::Abort(handle) => DispatchActionView::Abort(handle),
            DispatchAction::Stop => DispatchActionView::Stop,
        }
    }
}

/// What is done with `message`, and who is connected then. Bytes for a client that
/// is not connected go nowhere.
pub open spec fn dispatched<T, H, W>(
    connections: Map<u32, (T, H)>,
    message: Option<MessageView<W>>,
) -> (DispatchActionView<W, H>, Map<u32, (T, H)>) {
    match message {
        Some(MessageView::New(id, writer)) => (
            DispatchActionView::Spawn(id, writer, network_bytes(id)),
            connections,
        ),
        Some(MessageView::Send(id, bytes)) => (
            if connections.contains_key(id) {
                DispatchActionView::Forward(id, bytes)
            } else {
                DispatchActionView::Receive
            },
            connections,
        ),
        Some(MessageView::Disconnect(id)) => (
            if connections.contains_key(id) {
                DispatchActionView::Abort(connections[id].1)
            } else {
                DispatchActionView::Receive
            },
            connections.remove(id),
        ),
        None => (DispatchActionView::Stop, connections),
    }
}

impl<T, H> Dispatcher<T, H> {
    pub fn new() -> (dispatcher: Dispatcher<T, H>)
        ensures
            dispatcher@ == Map::<u32, (T, H)>::empty(),
    {
        Dispatcher { connections: HashMap::new() }
    }

    /// Reacts to a message of a reading task, or to the end of the messages.
    pub fn central_dispatcher<W>(&mut self, message: Option<Message<W>>) -> (action: DispatchAction<
        W,
        H,
    >)
        ensures
            (action@, final(self)@) == dispatched(
                old(self)@,
                match message {
                    Some(message) => Some(message@),
                    None => None,
                },
            ),
    {
        let ghost before = self@;
        match message {
            Some(Message::New(id, connection)) => DispatchAction::Spawn(
                id,
                connection,
                greeting(id),
            ),
            Some(Message::Send(id, items)) => if self.connections.contains_key(&id) {
                DispatchAction::Forward(id, items)
            } else {
                DispatchAction::Receive
            },
            Some(Message::Disconnect(id)) => match self.connections.remove(&id) {
                Some((_, handle)) => DispatchAction::Abort(handle),
                None => {
                    assert(before.remove(id) =~= before);
                    DispatchAction::Receive
                },
            },
            None => DispatchAction::Stop,
        }
    }

    /// Remembers the writing task that was started for a client.
    pub fn connect(&mut self, id: u32, tx: T, handle: H)
        ensures
            final(self)@ == old(self)@.insert(id, (tx, handle)),
    {
        self.connections.insert(id, (tx, handle));
    }
}

/// How far a writing task has come.
pub enum ClientEvent<E> {
    Begin,
    /// These bytes came through the channel.
    Received(Bytes),
    /// What writing all of the bytes gave.
    Wrote(Result<(), E>),
}

/// What a writing task does next.
pub enum ClientAction<E> {
    /// Wait for bytes from the channel.
    Receive,
    /// Write all of the bytes.
    WriteAll(Bytes),
    /// The client cannot be written to.
    Stop(E),
}

/// What a writing task does after `event`.
pub open spec fn stepped<E>(event: ClientEvent<E>) -> ClientAction<E> {
    match event {
        ClientEvent::Begin => ClientAction::Receive,
        ClientEvent::Received(bytes) => ClientAction::WriteAll(bytes),
        ClientEvent::Wrote(Ok(_)) => ClientAction::Receive,
        ClientEvent::Wrote(Err(error)) => ClientAction::Stop(error),
    }
}

/// One step of a writing task: the bytes are written in the order in which they
/// come, until a write fails.
pub fn client_dispatcher<E>(event: ClientEvent<E>) -> (action: ClientAction<E>)
    ensures
        action == stepped(event),
{
    match event {
        ClientEvent::Begin => ClientAction::Receive,
        ClientEvent::Received(bytes) => ClientAction::WriteAll(bytes),
        ClientEvent::Wrote(Ok(_)) => ClientAction::Receive,
        ClientEvent::Wrote(Err(error)) => ClientAction::Stop(error),
    }
}

/// A whole message that is read from any client goes to the writing task of the
/// client that it names, if that one is connected: the body and its null byte,
/// without the ID. What follows the message stays to be read.
pub proof fn law_message_forwarded<T, H, W, E>(
    connections: Map<u32, (T, H)>,
    id: u32,
    outcome: Result<usize, E>,
    dest: u32,
    body: Seq<u8>,
    rest: Seq<u8>,
)
    requires
        is_body(body),
    ensures
        ({
            let (reply, left) = replied::<W, E>(id, encode(dest, body) + rest, outcome);
            &&& left == rest
            &&& reply matches ReplyView::Tell(message) && dispatched(connections, Some(message))
                == (
                if connections.contains_key(dest) {
                    DispatchActionView::<W, H>::Forward(dest, body.push(0))
                } else {
                    DispatchActionView::Receive
                },
                connections,
            )
        }),
{
    law_encoded_is_parsed(dest, body, rest);
}

/// After a read the dispatcher is told of every whole message that the client sent,
/// in order, whatever came of the read. Only then does the task read on or stop, and
/// what is left holds no whole message.
pub proof fn law_every_message_told<W, E>(id: u32, incoming: Seq<u8>, outcome: Result<usize, E>)
    ensures
        told::<W, E>(id, incoming, outcome) == messages(incoming).map_values(
            |m: (u32, Seq<u8>)| MessageView::<W>::Send(m.0, m.1),
        ),
        concluded::<W, E>(id, incoming, outcome) == (
            match outcome {
                Ok(n) if n > 0 => ReplyView::<W>::Read,
                _ => ReplyView::Stop(MessageView::Disconnect(id)),
            },
            leftover(incoming),
        ),
        parse(leftover(incoming)) is None,
    decreases incoming.len(),
{
    law_one_at_a_time(incoming);
    law_leftover_is_incomplete(incoming);
    let as_told = |m: (u32, Seq<u8>)| MessageView::<W>::Send(m.0, m.1);
    if let Some((dest, payload, rest)) = parse(incoming) {
        law_parsed_is_encoded(incoming);
        law_every_message_told::<W, E>(id, rest, outcome);
        let mail = messages(incoming);
        assert(mail =~= seq![(dest, payload)] + messages(rest));
        assert(told::<W, E>(id, incoming, outcome) =~= mail.map_values(as_told));
    } else {
        assert(told::<W, E>(id, incoming, outcome) =~= messages(incoming).map_values(as_told));
    }
}

/// A client that is gone is forgotten: its writing task is stopped, nothing is
/// forwarded to it any more, and the others are as if it had never come.
pub proof fn law_disconnect_undoes_connect<T, H, W>(
    connections: Map<u32, (T, H)>,
    id: u32,
    tx: T,
    handle: H,
    bytes: Seq<u8>,
)
    requires
        !connections.contains_key(id),
    ensures
        ({
            let connected = connections.insert(id, (tx, handle));
            let (action, after) = dispatched(connected, Some(MessageView::<W>::Disconnect(id)));
            &&& action == DispatchActionView::<W, H>::Abort(handle)
            &&& after == connections
            &&& dispatched(after, Some(MessageView::<W>::Send(id, bytes)))
                == (DispatchActionView::<W, H>::Receive, connections)
        }),
{
    assert(connections.insert(id, (tx, handle)).remove(id) =~= connections);
}

/// The first bytes for a client's writing task are the client's ID in network
/// order.
pub proof fn law_greeted_first<T, H, W>(connections: Map<u32, (T, H)>, id: u32, writer: W)
    ensures
        dispatched(connections, Some(MessageView::New(id, writer))) == (
            DispatchActionView::<W, H>::Spawn(id, writer, network_bytes(id)),
            connections,
        ),
{
}

} // verus!
