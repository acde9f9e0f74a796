//! A single task that races the listener, every reader and every writer, with
//! clients known by their place in a list. Messages are copied into one buffer per
//! client.
//!
//! Whoever runs the task performs the race and hands its outcome to
//! [`Router::handle_connections`].

use crate::buffers::{content_slice, unread};
use crate::message::{addressed, encode, is_body, leftover, messages, parse};
use crate::message::{law_encoded_is_parsed, law_one_at_a_time, law_parsed_is_encoded};
use crate::message::{law_leftover_is_incomplete, lemma_addressed_first, parse_message};
use crate::poll::Contest;
use crate::wire::{law_bytes_injective, network_bytes, to_network};
use bytes::{BufMut, BytesMut};
use vstd::prelude::*;

pub mod promises;
pub mod runs;

verus! {

/// What a race ends with.
pub enum Event<R, W> {
    /// Bytes joined the buffer of the reader at this place.
    Read(usize),
    /// A client connected: the two halves of its stream.
    Connection(R, W),
}

/// The half of a client's stream that is read from.
pub struct ReadSocket<R> {
    /// What the client sent and no message was made of yet.
    pub buffer: BytesMut,
    pub reader: R,
}

/// What a [`ReadSocket`] holds.
#[verifier::ext_equal]
pub struct ReadSocketView<R> {
    pub incoming: Seq<u8>,
    pub reader: R,
}

impl<R> View for ReadSocket<R> {
    type V = ReadSocketView<R>;

    open spec fn view(&self) -> ReadSocketView<R> {
        ReadSocketView { incoming: unread(self.buffer), reader: self.reader }
    }
}

impl<R> ReadSocket<R> {
    pub fn new(reader: R) -> (socket: ReadSocket<R>)
        ensures
            socket@ == (ReadSocketView { incoming: seq![], reader }),
    {
        let socket = ReadSocket { buffer: BytesMut::new(), reader };
        assert(socket@.incoming =~= seq![]);
        socket
    }
}

/// The half of a client's stream that is written to.
pub struct WriteSocket<W> {
    /// What is still to be written to the client.
    pub buffer: BytesMut,
    pub writer: W,
}

/// What a [`WriteSocket`] holds.
#[verifier::ext_equal]
pub struct WriteSocketView<W> {
    pub pending: Seq<u8>,
    pub writer: W,
}

impl<W> WriteSocketView<W> {
    /// The socket once `bytes` joined what is to be written.
    pub open spec fn sent(self, bytes: Seq<u8>) -> Self {
        WriteSocketView { pending: self.pending + bytes, ..self }
    }

    /// There is room in memory for `bytes` to join what is to be written.
    pub open spec fn has_room(self, bytes: Seq<u8>) -> bool {
        self.pending.len() + bytes.len() <= isize::MAX
    }
}

impl<W> View for WriteSocket<W> {
    type V = WriteSocketView<W>;

    open spec fn view(&self) -> WriteSocketView<W> {
        WriteSocketView { pending: unread(self.buffer), writer: self.writer }
    }
}

/// What [`WriteSocket::advance_send`] does next.
#[derive(Debug, Clone, Copy, PartialEq, Eq, Structural)]
pub enum SendAction {
    /// There is nothing to write: wait until dropped.
    WaitForever,
    /// Write all of the buffer.
    WriteAll,
}

impl<W> WriteSocket<W> {
    pub fn new(writer: W) -> (socket: WriteSocket<W>)
        ensures
            socket@ == (WriteSocketView { pending: seq![], writer }),
    {
        let socket = WriteSocket { buffer: BytesMut::new(), writer };
        assert(socket@.pending =~= seq![]);
        socket
    }

    /// One step of writing what is to be written, until there is nothing left.
    pub fn advance_send(&self) -> (action: SendAction)
        ensures
            action == if self@.pending.len() == 0 {
                SendAction::WaitForever
            } else {
                SendAction::WriteAll
            },
    {
        if self.buffer.is_empty() {
            SendAction::WaitForever
        } else {
            SendAction::WriteAll
        }
    }

    /// Schedules `buf` to be written after all that was scheduled before.
    pub fn send(&mut self, buf: &[u8])
        requires
            old(self)@.has_room(buf@),
        ensures
            final(self)@ == old(self)@.sent(buf@),
    {
        self.buffer.put_slice(buf);
    }
}

/// The connected clients. A client's ID is its place among them.
pub struct Router<R, W> {
    pub read_connections: Vec<ReadSocket<R>>,
    pub write_connections: Vec<WriteSocket<W>>,
}

/// What a [`Router`] holds.
#[verifier::ext_equal]
pub struct RouterView<R, W> {
    pub readers: Seq<ReadSocketView<R>>,
    pub writers: Seq<WriteSocketView<W>>,
}

impl<R, W> View for Router<R, W> {
    type V = RouterView<R, W>;

    open spec fn view(&self) -> RouterView<R, W> {
        RouterView {
            readers: self.read_connections@.map_values(|socket: ReadSocket<R>| socket@),
            writers: self.write_connections@.map_values(|socket: WriteSocket<W>| socket@),
        }
    }
}

impl<R, W> RouterView<R, W> {
    /// Every client is there with both halves of its stream.
    pub open spec fn paired(self) -> bool {
        self.readers.len() == self.writers.len()
    }

    /// No client sent a whole message that was not delivered yet.
    pub open spec fn settled(self) -> bool {
        forall|i: int|
            0 <= i < self.readers.len() ==> parse((#[trigger] self.readers[i]).incoming) is None
    }

    /// The clients once one was connected. Its ID, the number of those before it,
    /// is the first thing to be written to it.
    pub open spec fn joined(self, reader: R, writer: W) -> Self {
        RouterView {
            readers: self.readers.push(ReadSocketView { incoming: seq![], reader }),
            writers: self.writers.push(
                WriteSocketView { pending: network_bytes(self.writers.len() as u32), writer },
            ),
        }
    }

    /// The message that `from` sent, if it is whole, is for a client that is
    /// connected and has room for it.
    pub open spec fn can_deliver(self, from: int) -> bool {
        parse(self.readers[from].incoming) matches Some((dest, payload, _)) ==> {
            &&& dest < self.writers.len()
            &&& self.writers[dest as int].has_room(payload)
        }
    }

    /// The clients once `from` was read from. Where `from` sent a whole message, it
    /// leaves the bytes that `from` sent, and its payload joins what is to be
    /// written to its destination.
    pub open spec fn delivered(self, from: int) -> Self {
        match parse(self.readers[from].incoming) {
            Some((dest, payload, rest)) => RouterView {
                readers: self.readers.update(
                    from,
                    ReadSocketView { incoming: rest, ..self.readers[from] },
                ),
                writers: self.writers.update(
                    dest as int,
                    self.writers[dest as int].sent(payload),
                ),
            },
            None => self,
        }
    }
}

impl<R, W> Router<R, W> {
    pub fn new() -> (router: Router<R, W>)
        ensures
            router@ == (RouterView::<R, W> { readers: seq![], writers: seq![] }),
            router@.paired(),
    {
        let router = Router { read_connections: Vec::new(), write_connections: Vec::new() };
        assert(router@ =~= RouterView { readers: seq![], writers: seq![] });
        router
    }

    /// What to wait for: a connection, and, once somebody is connected, bytes from
    /// any client and room to write to any client.
    pub fn contest(&self) -> (contest: Contest)
        ensures
            contest == if self@.readers.len() == 0 || self@.writers.len() == 0 {
                Contest::Listener
            } else {
                Contest::Everyone
            },
    {
        if self.read_connections.len() == 0 || self.write_connections.len() == 0 {
            Contest::Listener
        } else {
            Contest::Everyone
        }
    }

    /// Connects a client. Its ID is the first thing to be written to it.
    pub fn join(&mut self, reader: R, writer: W)
        ensures
            final(self)@ == old(self)@.joined(reader, writer),
            old(self)@.paired() ==> final(self)@.paired(),
    {
        let ghost before = self@;
        let mut write_sock = WriteSocket::new(writer);
        let id: [u8; 4] = to_network(self.write_connections.len() as u32);
        write_sock.send(id.as_slice());
        self.read_connections.push(ReadSocket::new(reader));
        self.write_connections.push(write_sock);
        assert(write_sock@.pending =~= network_bytes(before.writers.len() as u32));
        assert(self@ =~= before.joined(reader, writer));
    }

    /// Makes a message of what the client `from` sent, where it sent a whole one,
    /// and schedules it for its destination. Says whether there was one.
    pub fn deliver(&mut self, from: usize) -> (taken: bool)
        requires
            from < old(self)@.readers.len(),
            old(self)@.can_deliver(from as int),
        ensures
            final(self)@ == old(self)@.delivered(from as int),
            taken == (parse(old(self)@.readers[from as int].incoming) is Some),
            old(self)@.paired() ==> final(self)@.paired(),
    {
        let ghost before = self@;
        match parse_message(&mut self.read_connections[from].buffer) {
            Ok((dest, payload)) => {
                assert(before.writers[dest as int] == self.write_connections@[dest as int]@);
                self.write_connections[dest as usize].send(content_slice(&payload));
                assert(self@ =~= before.delivered(from as int));
                true
            },
            Err(_) => {
                assert(self@ =~= before);
                false
            },
        }
    }

    /// Reacts to what a race ended with. One message is delivered at a time: where
    /// the answer is `true`, the same client may have sent another, and the event is
    /// to be handed in again before the next race.
    pub fn handle_connections(&mut self, event: Event<R, W>) -> (again: bool)
        requires
            event matches Event::Read(from) ==> {
                &&& from < old(self)@.readers.len()
                &&& old(self)@.can_deliver(from as int)
            },
        ensures
            final(self)@ == match event {
                Event::Read(from) => old(self)@.delivered(from as int),
                Event::Connection(reader, writer) => old(self)@.joined(reader, writer),
            },
            again == (event matches Event::Read(from) && parse(
                old(self)@.readers[from as int].incoming,
            ) is Some),
            old(self)@.paired() ==> final(self)@.paired(),
    {
        match event {
            Event::Read(from) => self.deliver(from),
            Event::Connection(reader, writer) => {
                self.join(reader, writer);
                false
            },
        }
    }
}

/// A new client is owed its ID in network order and nothing else, and everyone
/// else keeps the ID and the bytes that they had.
pub proof fn law_greeted_first<R, W>(router: RouterView<R, W>, reader: R, writer: W)
    ensures
        ({
            let after = router.joined(reader, writer);
            let id = router.writers.len();
            &&& after.writers.len() == id + 1
            &&& after.writers[id as int].pending == network_bytes(id as u32)
            &&& after.readers.last().incoming == Seq::<u8>::empty()
            &&& after.writers.take(id as int) == router.writers
            &&& after.readers.take(router.readers.len() as int) == router.readers
        }),
{
    let after = router.joined(reader, writer);
    assert(after.writers.take(router.writers.len() as int) =~= router.writers);
    assert(after.readers.take(router.readers.len() as int) =~= router.readers);
}

/// The IDs that two clients are sent differ, as long as IDs have not run out.
pub proof fn law_ids_differ(first: nat, second: nat)
    requires
        first < second <= u32::MAX,
    ensures
        network_bytes(first as u32) != network_bytes(second as u32),
{
    if network_bytes(first as u32) == network_bytes(second as u32) {
        law_bytes_injective(first as u32, second as u32);
    }
}

/// A whole message reaches the client that it names: the body and its null byte,
/// without the ID, follow what that client was owed. It is gone from what the
/// sender sent, and nobody else notices.
pub proof fn law_message_forwarded<R, W>(
    router: RouterView<R, W>,
    from: int,
    dest: u32,
    body: Seq<u8>,
    rest: Seq<u8>,
)
    requires
        0 <= from < router.readers.len(),
        dest < router.writers.len(),
        is_body(body),
        router.readers[from].incoming == encode(dest, body) + rest,
    ensures
        ({
            let after = router.delivered(from);
            &&& after.writers.len() == router.writers.len()
            &&& after.readers.len() == router.readers.len()
            &&& after.writers[dest as int].pending == router.writers[dest as int].pending
                + body.push(0)
            &&& after.readers[from].incoming == rest
            &&& forall|other: int|
                0 <= other < router.writers.len() && other != dest
                    ==> #[trigger] after.writers[other] == router.writers[other]
            &&& forall|other: int|
                0 <= other < router.readers.len() && other != from
                    ==> #[trigger] after.readers[other] == router.readers[other]
        }),
{
    law_encoded_is_parsed(dest, body, rest);
}

/// The clients once `from` was read from `n` times.
pub open spec fn delivered_often<R, W>(
    router: RouterView<R, W>,
    from: int,
    n: nat,
) -> RouterView<R, W>
    decreases n,
{
    if n == 0 {
        router
    } else {
        delivered_often(router.delivered(from), from, (n - 1) as nat)
    }
}

/// Reading from a client often enough forwards all messages that it sent, each to
/// the client that it names and in the order in which they were sent, and leaves
/// what is not a whole message yet.
pub proof fn law_all_messages_forwarded_in_order<R, W>(router: RouterView<R, W>, from: int)
    requires
        0 <= from < router.readers.len(),
        forall|i: int|
            0 <= i < messages(router.readers[from].incoming).len() ==> (#[trigger] messages(
                router.readers[from].incoming,
            )[i]).0 < router.writers.len(),
    ensures
        ({
            let mail = messages(router.readers[from].incoming);
            let after = delivered_often(router, from, mail.len());
            &&& after.readers == router.readers.update(
                from,
                ReadSocketView {
                    incoming: leftover(router.readers[from].incoming),
                    ..router.readers[from]
                },
            )
            &&& after.writers.len() == router.writers.len()
            &&& forall|id: int|
                0 <= id < router.writers.len() && id <= u32::MAX ==> (
                #[trigger] after.writers[id]).pending == router.writers[id].pending + addressed(
                    mail,
                    id as u32,
                )
        }),
    decreases router.readers[from].incoming.len(),
{
    let stream = router.readers[from].incoming;
    let mail = messages(stream);
    let after = delivered_often(router, from, mail.len());
    let left = ReadSocketView { incoming: leftover(stream), ..router.readers[from] };
    law_one_at_a_time(stream);
    if let Some((dest, payload, rest)) = parse(stream) {
        law_parsed_is_encoded(stream);
        assert(mail[0].0 == dest);
        let once = router.delivered(from);
        assert forall|i: int| 0 <= i < messages(rest).len() implies (#[trigger] messages(
            rest,
        )[i]).0 < once.writers.len() by {
            assert(messages(rest)[i] == mail[i + 1]);
        }
        law_all_messages_forwarded_in_order(once, from);
        assert(after == delivered_often(once, from, mail.drop_first().len()));
        assert(after.readers =~= router.readers.update(from, left));
        assert forall|id: int| 0 <= id < router.writers.len() && id <= u32::MAX implies (
        #[trigger] after.writers[id]).pending == router.writers[id].pending + addressed(
            mail,
            id as u32,
        ) by {
            lemma_addressed_first(mail, id as u32, router.writers[id].pending);
            assert(once.writers[id].pending == if id == dest {
                router.writers[id].pending + payload
            } else {
                router.writers[id].pending
            });
        }
    } else {
        assert(after.readers =~= router.readers.update(from, left));
        assert forall|id: int| 0 <= id < router.writers.len() && id <= u32::MAX implies (
        #[trigger] after.writers[id]).pending == router.writers[id].pending + addressed(
            mail,
            id as u32,
        ) by {
            assert(router.writers[id].pending + addressed(mail, id as u32)
                =~= router.writers[id].pending);
        }
    }
}

/// Once a client was read from until there is nothing to deliver, nobody has sent a
/// whole message that was not delivered, if that held of the others.
pub proof fn law_settled_again<R, W>(router: RouterView<R, W>, from: int)
    requires
        0 <= from < router.readers.len(),
        forall|i: int|
            0 <= i < messages(router.readers[from].incoming).len() ==> (#[trigger] messages(
                router.readers[from].incoming,
            )[i]).0 < router.writers.len(),
        forall|i: int|
            0 <= i < router.readers.len() && i != from ==> parse(
                (#[trigger] router.readers[i]).incoming,
            ) is None,
    ensures
        delivered_often(
            router,
            from,
            messages(router.readers[from].incoming).len(),
        ).settled(),
{
    law_all_messages_forwarded_in_order(router, from);
    law_leftover_is_incomplete(router.readers[from].incoming);
}

} // verus!
