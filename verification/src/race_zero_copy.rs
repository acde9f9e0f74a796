//! A single task that races the listener, every reader and every writer, and
//! reacts to whichever finishes first. Messages are handed on in the buffers that
//! they were read in.
//!
//! Whoever runs the task performs the race and hands its outcome to
//! [`Server::handle_connections`].

use crate::buffers::{content, contents, unread};
use crate::identity::{draw, drawn, greeting};
use crate::message::{addressed, encode, is_body, leftover, messages, parse};
use crate::message::{law_encoded_is_parsed, law_one_at_a_time, law_parsed_is_encoded};
use crate::message::{law_leftover_is_incomplete, lemma_addressed_first, parse_message};
use crate::poll::Contest;
use crate::queue::{front_mut, law_push_appends};
use crate::table::find_mut;
use crate::wire::network_bytes;
use bytes::{Bytes, BytesMut};
use std::collections::{HashMap, VecDeque};
use vstd::prelude::*;

pub mod promises;
pub mod runs;

verus! {

broadcast use {
    vstd::std_specs::hash::group_hash_axioms,
    vstd::std_specs::vecdeque::group_vec_dequeue_axioms,
};

/// What a race ends with.
pub enum Event<R, W> {
    /// Bytes joined the buffer of the reader with this ID.
    Read(u32),
    /// A client connected: the two halves of its stream.
    Connection(R, W),
}

/// The half of a client's stream that is read from.
pub struct ReadSocket<R> {
    /// What the client sent and no message was made of yet.
    pub buffer: BytesMut,
    pub reader: R,
    pub id: u32,
}

/// What a [`ReadSocket`] holds.
#[verifier::ext_equal]
pub struct ReadSocketView<R> {
    pub incoming: Seq<u8>,
    pub reader: R,
    pub id: u32,
}

impl<R> View for ReadSocket<R> {
    type V = ReadSocketView<R>;

    open spec fn view(&self) -> ReadSocketView<R> {
        ReadSocketView { incoming: unread(self.buffer), reader: self.reader, id: self.id }
    }
}

impl<R> ReadSocket<R> {
    pub fn new(reader: R, id: u32) -> (socket: ReadSocket<R>)
        ensures
            socket@ == (ReadSocketView { incoming: seq![], reader, id }),
    {
        let socket = ReadSocket { buffer: BytesMut::new(), reader, id };
        assert(socket@.incoming =~= seq![]);
        socket
    }

    /// What reading into the buffer, which gave `outcome`, means to the server. An
    /// error is reported with the ID of the client.
    pub fn read<W, E>(&self, outcome: Result<usize, E>) -> (event: Result<Event<R, W>, (E, u32)>)
        ensures
            event == match outcome {
                Ok(_) => Ok::<Event<R, W>, (E, u32)>(Event::Read(self@.id)),
                Err(error) => Err((error, self@.id)),
            },
    {
        match outcome {
            Ok(_) => Ok(Event::Read(self.id)),
            Err(error) => Err((error, self.id)),
        }
    }
}

/// The half of a client's stream that is written to.
pub struct WriteSocket<W> {
    /// What is still to be written to the client.
    pub buffers: VecDeque<Bytes>,
    pub writer: W,
    pub id: u32,
}

/// What a [`WriteSocket`] holds.
#[verifier::ext_equal]
pub struct WriteSocketView<W> {
    pub outgoing: Seq<Seq<u8>>,
    pub writer: W,
    pub id: u32,
}

impl<W> WriteSocketView<W> {
    /// The socket once `bytes` joined what is to be written.
    pub open spec fn sent(self, bytes: Seq<u8>) -> Self {
        WriteSocketView { outgoing: self.outgoing.push(bytes), ..self }
    }

    /// The socket once its first buffer was taken off.
    pub open spec fn popped(self) -> Self {
        WriteSocketView { outgoing: self.outgoing.drop_first(), ..self }
    }

    /// The socket once `n` bytes of its first buffer were written.
    pub open spec fn drained(self, n: int) -> Self {
        WriteSocketView { outgoing: self.outgoing.update(0, self.outgoing[0].skip(n)), ..self }
    }

    /// All bytes that are still to be written, in order.
    pub open spec fn pending(self) -> Seq<u8> {
        self.outgoing.flatten()
    }
}

impl<W> View for WriteSocket<W> {
    type V = WriteSocketView<W>;

    open spec fn view(&self) -> WriteSocketView<W> {
        WriteSocketView {
            outgoing: contents(self.buffers@),
            writer: self.writer,
            id: self.id,
        }
    }
}

/// How far a call of [`WriteSocket::advance_send`] has come.
pub enum SendEvent<E> {
    Begin,
    /// What writing all of [`WriteSocket::front`] gave.
    Written(Result<(), E>),
}

/// What [`WriteSocket::advance_send`] does next.
pub enum SendAction<E> {
    /// There is nothing to write: wait until dropped.
    WaitForever,
    /// Write all of [`WriteSocket::front`].
    WriteFront,
    Fail((E, u32)),
}

impl<W> WriteSocket<W> {
    pub fn new(writer: W, id: u32) -> (socket: WriteSocket<W>)
        ensures
            socket@ == (WriteSocketView { outgoing: seq![], writer, id }),
    {
        let socket = WriteSocket { buffers: VecDeque::new(), writer, id };
        assert(socket@.outgoing =~= seq![]);
        socket
    }

    /// Schedules `buf` to be written after all that was scheduled before.
    pub fn send(&mut self, buf: Bytes)
        ensures
            final(self)@ == old(self)@.sent(content(buf)),
    {
        let ghost before = self@;
        self.buffers.push_back(buf);
        assert(self@ =~= before.sent(content(buf)));
    }

    /// The buffer that waited longest, and what to write it to. What was written of
    /// the buffer is taken off it.
    pub fn front(&mut self) -> (writing: (Option<&mut Bytes>, &mut W))
        ensures
            *writing.1 == old(self)@.writer,
            match writing.0 {
                Some(buffer) => {
                    &&& old(self)@.outgoing.len() > 0
                    &&& content(*buffer) == old(self)@.outgoing[0]
                    &&& final(self)@ == (WriteSocketView {
                        outgoing: old(self)@.outgoing.update(0, content(*final(buffer))),
                        writer: *final(writing.1),
                        id: old(self)@.id,
                    })
                },
                None => {
                    &&& old(self)@.outgoing.len() == 0
                    &&& final(self)@ == (WriteSocketView {
                        writer: *final(writing.1),
                        ..old(self)@
                    })
                },
            },
    {
        (front_mut(&mut self.buffers), &mut self.writer)
    }

    /// One step of writing what is to be written, buffer by buffer, until there is
    /// nothing left or an error, which is reported with the ID of the client.
    pub fn advance_send<E>(&mut self, event: SendEvent<E>) -> (action: SendAction<E>)
        requires
            event matches SendEvent::Written(Ok(_)) ==> old(self)@.outgoing.len() > 0,
        ensures
            final(self)@ == match event {
                SendEvent::Written(Ok(_)) => old(self)@.popped(),
                _ => old(self)@,
            },
            action == match event {
                SendEvent::Written(Err(error)) => SendAction::Fail((error, old(self)@.id)),
                _ => if final(self)@.outgoing.len() == 0 {
                    SendAction::<E>::WaitForever
                } else {
                    SendAction::WriteFront
                },
            },
    {
        let ghost before = self@;
        match event {
            SendEvent::Begin => {},
            SendEvent::Written(Ok(_)) => {
                self.buffers.pop_front();
                assert(self@ =~= before.popped());
            },
            SendEvent::Written(Err(error)) => {
                return SendAction::Fail((error, self.id));
            },
        }
        if self.buffers.len() == 0 {
            SendAction::WaitForever
        } else {
            SendAction::WriteFront
        }
    }
}

/// What is to be done in answer to the end of a race.
pub struct Step<E> {
    /// The same client may have sent another message: the event is to be handed in
    /// again before the next race.
    pub again: bool,
    /// Why a client is gone.
    pub failed: Option<E>,
}

/// The connected clients.
#[verifier::reject_recursive_types(R)]
#[verifier::reject_recursive_types(W)]
pub struct Server<R, W> {
    pub read_connections: HashMap<u32, ReadSocket<R>>,
    pub write_connections: HashMap<u32, WriteSocket<W>>,
}

/// What a [`Server`] holds.
#[verifier::ext_equal]
#[verifier::reject_recursive_types(R)]
#[verifier::reject_recursive_types(W)]
pub struct ServerView<R, W> {
    pub readers: Map<u32, ReadSocketView<R>>,
    pub writers: Map<u32, WriteSocketView<W>>,
}

impl<R, W> View for Server<R, W> {
    type V = ServerView<R, W>;

    open spec fn view(&self) -> ServerView<R, W> {
        ServerView {
            readers: self.read_connections@.map_values(|socket: ReadSocket<R>| socket@),
            writers: self.write_connections@.map_values(|socket: WriteSocket<W>| socket@),
        }
    }
}

impl<R, W> ServerView<R, W> {
    /// Every client is there with both halves of its stream, and each half knows
    /// the client's ID.
    pub open spec fn paired(self) -> bool {
        &&& self.readers.dom() == self.writers.dom()
        &&& forall|id: u32| #[trigger] self.readers.contains_key(id) ==> self.readers[id].id == id
        &&& forall|id: u32| #[trigger] self.writers.contains_key(id) ==> self.writers[id].id == id
    }

    /// No client sent a whole message that was not delivered yet.
    pub open spec fn settled(self) -> bool {
        forall|id: u32| #[trigger]
            self.readers.contains_key(id) ==> parse(self.readers[id].incoming) is None
    }

    /// The clients once one was connected under `id`: the ID is the first thing to
    /// be written to it.
    pub open spec fn joined(self, reader: R, writer: W, id: u32) -> Self {
        ServerView {
            readers: self.readers.insert(id, ReadSocketView { incoming: seq![], reader, id }),
            writers: self.writers.insert(
                id,
                WriteSocketView { outgoing: seq![network_bytes(id)], writer, id },
            ),
        }
    }

    /// The clients without `id`.
    pub open spec fn without(self, id: u32) -> Self {
        ServerView { readers: self.readers.remove(id), writers: self.writers.remove(id) }
    }

    /// The clients once `from` was read from. Where `from` sent a whole message, it
    /// leaves the bytes that `from` sent, and its payload joins what is to be
    /// written to its destination. A destination that is not connected gets
    /// nothing.
    pub open spec fn delivered(self, from: u32) -> Self {
        match parse(self.readers[from].incoming) {
            Some((dest, payload, rest)) => ServerView {
                readers: self.readers.insert(
                    from,
                    ReadSocketView { incoming: rest, ..self.readers[from] },
                ),
                writers: if self.writers.contains_key(dest) {
                    self.writers.insert(dest, self.writers[dest].sent(payload))
                } else {
                    self.writers
                },
            },
            None => self,
        }
    }
}

impl<R, W> Server<R, W> {
    pub fn new() -> (server: Server<R, W>)
        ensures
            server@ == (ServerView::<R, W> { readers: Map::empty(), writers: Map::empty() }),
            server@.paired(),
    {
        let server = Server { read_connections: HashMap::new(), write_connections: HashMap::new() };
        assert(server@ =~= ServerView { readers: Map::empty(), writers: Map::empty() });
        server
    }

    /// What to wait for: a connection, and, once somebody is connected, bytes from
    /// any client and room to write to any client.
    pub fn next_event(&self) -> (contest: Contest)
        ensures
            contest == if self@.readers.is_empty() {
                Contest::Listener
            } else {
                Contest::Everyone
            },
            self@.paired() && contest == Contest::Everyone ==> {
                &&& !self@.readers.is_empty()
                &&& !self@.writers.is_empty()
            },
    {
        assert(self@.readers.dom() =~= self.read_connections@.dom());
        if self.read_connections.is_empty() {
            Contest::Listener
        } else {
            Contest::Everyone
        }
    }

    /// Connects a client under the given ID, which is the first thing to be
    /// written to it.
    pub fn join(&mut self, reader: R, writer: W, id: u32)
        ensures
            final(self)@ == old(self)@.joined(reader, writer, id),
            old(self)@.paired() ==> final(self)@.paired(),
    {
        let ghost before = self@;
        let mut write_sock = WriteSocket::new(writer, id);
        write_sock.send(greeting(id));
        self.read_connections.insert(id, ReadSocket::new(reader, id));
        self.write_connections.insert(id, write_sock);
        assert(write_sock@.outgoing =~= seq![network_bytes(id)]);
        assert(self@ =~= before.joined(reader, writer, id));
        assert(before.paired() ==> self@.readers.dom() =~= self@.writers.dom());
    }

    /// Connects a client under a random ID.
    pub fn accept(&mut self, reader: R, writer: W) -> (id: u32)
        ensures
            drawn(id),
            final(self)@ == old(self)@.joined(reader, writer, id),
            old(self)@.paired() ==> final(self)@.paired(),
    {
        let id: u32 = draw();
        self.join(reader, writer, id);
        id
    }

    /// Makes a message of what the client `from` sent, where it sent a whole one,
    /// and schedules it for its destination. Says whether there was one.
    pub fn deliver(&mut self, from: u32) -> (taken: bool)
        requires
            old(self)@.readers.contains_key(from),
        ensures
            final(self)@ == old(self)@.delivered(from),
            taken == (parse(old(self)@.readers[from].incoming) is Some),
            old(self)@.paired() ==> final(self)@.paired(),
    {
        let ghost before = self@;
        let parsed = match find_mut(&mut self.read_connections, from) {
            Some(socket) => parse_message(&mut socket.buffer),
            None => return false,
        };
        match parsed {
            Ok((dest, payload)) => {
                proof {
                    let rest = parse(before.readers[from].incoming).unwrap().2;
                    assert(self@.readers =~= before.readers.insert(
                        from,
                        ReadSocketView { incoming: rest, ..before.readers[from] },
                    ));
                }
                if let Some(writer) = find_mut(&mut self.write_connections, dest) {
                    writer.send(payload);
                    assert(self@.writers =~= before.writers.insert(
                        dest,
                        before.writers[dest].sent(content(payload)),
                    ));
                }
                assert(self@ =~= before.delivered(from));
                assert(before.paired() ==> {
                    &&& self@.readers.dom() =~= before.readers.dom()
                    &&& self@.writers.dom() =~= before.writers.dom()
                });
                true
            },
            Err(_) => {
                assert(self@ =~= before);
                false
            },
        }
    }

    /// Reacts to what a race ended with. One message is delivered at a time. A client
    /// whose stream failed is gone, and the error is returned to be reported.
    pub fn handle_connections<E>(&mut self, event: Result<Event<R, W>, (E, u32)>) -> (step: Step<E>)
        requires
            event matches Ok(Event::Read(from)) ==> old(self)@.readers.contains_key(from),
        ensures
            match event {
                Ok(Event::Read(from)) => final(self)@ == old(self)@.delivered(from),
                Ok(Event::Connection(reader, writer)) => exists|id: u32|
                    drawn(id) && final(self)@ == #[trigger] old(self)@.joined(reader, writer, id),
                Err((_, id)) => final(self)@ == old(self)@.without(id),
            },
            step.again == (event matches Ok(Event::Read(from)) && parse(
                old(self)@.readers[from].incoming,
            ) is Some),
            step.failed == match event {
                Ok(_) => None,
                Err((error, _)) => Some(error),
            },
            old(self)@.paired() ==> final(self)@.paired(),
    {
        let ghost before = self@;
        match event {
            Ok(Event::Read(from)) => {
                let again: bool = self.deliver(from);
                Step { again, failed: None }
            },
            Ok(Event::Connection(reader, writer)) => {
                self.accept(reader, writer);
                Step { again: false, failed: None }
            },
            Err((error, id)) => {
                self.read_connections.remove(&id);
                self.write_connections.remove(&id);
                assert(self@ =~= before.without(id));
                assert(before.paired() ==> self@.readers.dom() =~= self@.writers.dom());
                Step { again: false, failed: Some(error) }
            },
        }
    }
}

/// What is written of the first buffer is what waited longest, and it is gone from
/// what waits, in order, also where the write is given up halfway. A buffer that
/// was written to its end is taken off without taking a byte.
pub proof fn law_writes_in_order<W>(socket: WriteSocketView<W>, n: int)
    requires
        socket.outgoing.len() > 0,
        0 <= n <= socket.outgoing[0].len(),
    ensures
        socket.outgoing[0].take(n) == socket.pending().take(n),
        socket.drained(n).pending() == socket.pending().skip(n),
        n == socket.outgoing[0].len() ==> socket.drained(n).popped().pending()
            == socket.pending().skip(n),
{
    let rest = socket.outgoing.drop_first();
    assert(socket.pending() == socket.outgoing[0] + rest.flatten());
    assert(socket.outgoing[0].take(n) =~= socket.pending().take(n));
    let after = socket.drained(n);
    assert(after.outgoing.drop_first() =~= rest);
    assert(after.pending() == socket.outgoing[0].skip(n) + rest.flatten());
    assert(after.pending() =~= socket.pending().skip(n));
    if n == socket.outgoing[0].len() {
        assert(after.pending() =~= rest.flatten());
    }
}

/// What is sent follows what waits to be written.
pub proof fn law_sent_last<W>(socket: WriteSocketView<W>, bytes: Seq<u8>)
    ensures
        socket.sent(bytes).pending() == socket.pending() + bytes,
{
    law_push_appends(socket.outgoing, bytes);
}

/// A new client is owed its ID in network order and nothing else, and every
/// other client is as it was.
pub proof fn law_greeted_first<R, W>(server: ServerView<R, W>, reader: R, writer: W, id: u32)
    ensures
        ({
            let after = server.joined(reader, writer, id);
            &&& after.writers.contains_key(id)
            &&& after.readers.contains_key(id)
            &&& after.writers[id].pending() == network_bytes(id)
            &&& after.readers[id].incoming == Seq::<u8>::empty()
            &&& after.without(id) == server.without(id)
        }),
{
    law_push_appends(Seq::<Seq<u8>>::empty(), network_bytes(id));
    assert(Seq::<Seq<u8>>::empty().push(network_bytes(id)) =~= seq![network_bytes(id)]);
    assert(Seq::<u8>::empty() + network_bytes(id) =~= network_bytes(id));
    assert(server.joined(reader, writer, id).without(id) =~= server.without(id));
}

/// A whole message reaches the client that it names: the body and its null byte,
/// without the ID, follow what that client was owed. It is gone from what the
/// sender sent, and nobody else notices.
pub proof fn law_message_forwarded<R, W>(
    server: ServerView<R, W>,
    from: u32,
    dest: u32,
    body: Seq<u8>,
    rest: Seq<u8>,
)
    requires
        server.readers.contains_key(from),
        server.writers.contains_key(dest),
        is_body(body),
        server.readers[from].incoming == encode(dest, body) + rest,
    ensures
        ({
            let after = server.delivered(from);
            &&& after.writers[dest].pending() == server.writers[dest].pending() + body.push(0)
            &&& after.readers[from].incoming == rest
            &&& after.writers.remove(dest) == server.writers.remove(dest)
            &&& after.readers.remove(from) == server.readers.remove(from)
        }),
{
    law_encoded_is_parsed(dest, body, rest);
    law_push_appends(server.writers[dest].outgoing, body.push(0));
    let after = server.delivered(from);
    assert(after.writers.remove(dest) =~= server.writers.remove(dest));
    assert(after.readers.remove(from) =~= server.readers.remove(from));
}

/// A message for a client that is not connected goes nowhere: only the sender's
/// bytes change.
pub proof fn law_unknown_destination_dropped<R, W>(
    server: ServerView<R, W>,
    from: u32,
    dest: u32,
    body: Seq<u8>,
    rest: Seq<u8>,
)
    requires
        server.readers.contains_key(from),
        !server.writers.contains_key(dest),
        is_body(body),
        server.readers[from].incoming == encode(dest, body) + rest,
    ensures
        server.delivered(from).writers == server.writers,
        server.delivered(from).readers == server.readers.insert(
            from,
            ReadSocketView { incoming: rest, ..server.readers[from] },
        ),
{
    law_encoded_is_parsed(dest, body, rest);
}

/// A client that fails takes itself away and nobody else: the ID that a half of
/// its stream reports is the one that it is kept under.
pub proof fn law_failure_removes_the_failed<R, W>(server: ServerView<R, W>, id: u32)
    requires
        server.paired(),
        server.readers.contains_key(id),
    ensures
        server.without(server.readers[id].id) == server.without(id),
        server.without(server.writers[id].id) == server.without(id),
        !server.without(id).readers.contains_key(id),
        !server.without(id).writers.contains_key(id),
        forall|other: u32|
            other != id && #[trigger] server.readers.contains_key(other) ==> {
                &&& server.without(id).readers.contains_key(other)
                &&& server.without(id).writers.contains_key(other)
                &&& server.without(id).readers[other] == server.readers[other]
                &&& server.without(id).writers[other] == server.writers[other]
            },
        server.without(id).paired(),
{
    assert(server.writers.contains_key(id));
    assert(server.without(id).readers.dom() =~= server.without(id).writers.dom());
    assert forall|other: u32|
        other != id && #[trigger] server.readers.contains_key(other) implies {
        &&& server.without(id).readers.contains_key(other)
        &&& server.without(id).writers.contains_key(other)
        &&& server.without(id).readers[other] == server.readers[other]
        &&& server.without(id).writers[other] == server.writers[other]
    } by {
        assert(server.writers.contains_key(other));
    }
}

/// A client that joins and then fails leaves the others as if it had never come.
pub proof fn law_leaving_undoes_joining<R, W>(
    server: ServerView<R, W>,
    reader: R,
    writer: W,
    id: u32,
)
    requires
        !server.readers.contains_key(id),
        !server.writers.contains_key(id),
    ensures
        server.joined(reader, writer, id).without(id) == server,
{
    assert(server.joined(reader, writer, id).without(id) =~= server);
}

/// The clients once `from` was read from `n` times.
pub open spec fn delivered_often<R, W>(
    server: ServerView<R, W>,
    from: u32,
    n: nat,
) -> ServerView<R, W>
    decreases n,
{
    if n == 0 {
        server
    } else {
        delivered_often(server.delivered(from), from, (n - 1) as nat)
    }
}

/// Reading from a client often enough forwards all messages that it sent, each to
/// the client that it names and in the order in which they were sent, and leaves
/// what is not a whole message yet.
pub proof fn law_all_messages_forwarded_in_order<R, W>(server: ServerView<R, W>, from: u32)
    requires
        server.readers.contains_key(from),
    ensures
        ({
            let mail = messages(server.readers[from].incoming);
            let after = delivered_often(server, from, mail.len());
            &&& after.readers == server.readers.insert(
                from,
                ReadSocketView {
                    incoming: leftover(server.readers[from].incoming),
                    ..server.readers[from]
                },
            )
            &&& after.writers.dom() == server.writers.dom()
            &&& forall|id: u32| #[trigger]
                server.writers.contains_key(id) ==> after.writers[id].pending()
                    == server.writers[id].pending() + addressed(mail, id)
        }),
    decreases server.readers[from].incoming.len(),
{
    let stream = server.readers[from].incoming;
    let mail = messages(stream);
    let after = delivered_often(server, from, mail.len());
    let left = ReadSocketView { incoming: leftover(stream), ..server.readers[from] };
    law_one_at_a_time(stream);
    if let Some((dest, payload, rest)) = parse(stream) {
        law_parsed_is_encoded(stream);
        let once = server.delivered(from);
        assert(once.writers.dom() =~= server.writers.dom());
        assert(once.readers[from].incoming == rest);
        law_all_messages_forwarded_in_order(once, from);
        assert(after == delivered_often(once, from, mail.drop_first().len()));
        assert(after.readers =~= server.readers.insert(from, left));
        assert forall|id: u32| #[trigger] server.writers.contains_key(
            id,
        ) implies after.writers[id].pending() == server.writers[id].pending() + addressed(
            mail,
            id,
        ) by {
            assert(once.writers.contains_key(id));
            law_push_appends(server.writers[id].outgoing, payload);
            lemma_addressed_first(mail, id, server.writers[id].pending());
            assert(once.writers[id].pending() == if id == dest {
                server.writers[id].pending() + payload
            } else {
                server.writers[id].pending()
            });
        }
    } else {
        assert(after.readers =~= server.readers.insert(from, left));
        assert forall|id: u32| #[trigger] server.writers.contains_key(
            id,
        ) implies after.writers[id].pending() == server.writers[id].pending() + addressed(
            mail,
            id,
        ) by {
            assert(server.writers[id].pending() + addressed(mail, id)
                =~= server.writers[id].pending());
        }
    }
}

/// Once a client was read from until there is nothing to deliver, nobody has sent a
/// whole message that was not delivered, if that held of the others: a client that
/// fails in the next race takes none with it.
pub proof fn law_settled_again<R, W>(server: ServerView<R, W>, from: u32)
    requires
        server.readers.contains_key(from),
        forall|id: u32| #[trigger]
            server.readers.contains_key(id) && id != from ==> parse(server.readers[id].incoming) is None,
    ensures
        delivered_often(
            server,
            from,
            messages(server.readers[from].incoming).len(),
        ).settled(),
{
    law_all_messages_forwarded_in_order(server, from);
    law_leftover_is_incomplete(server.readers[from].incoming);
}

} // verus!
