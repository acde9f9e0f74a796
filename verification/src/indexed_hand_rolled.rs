//! A single task that polls the listener and every socket itself, with clients
//! known by their place in a list. Messages are copied into one buffer per client.
//!
//! Whoever runs the task performs the polls. It asks [`Router::poll_next`],
//! [`Socket::poll_send`] and [`Socket::poll_read`] what to poll, and hands them
//! what came of it.

use crate::buffers::{content, content_slice, unread};
use crate::message::{addressed, encode, is_body, leftover, messages, parse};
use crate::message::{law_encoded_is_parsed, law_one_at_a_time, law_parsed_is_encoded};
use crate::message::{law_leftover_is_incomplete, lemma_addressed_first, parse_message};
use crate::poll::Poll;
use crate::wire::{network_bytes, to_network};
use bytes::{Buf, BufMut, BytesMut};
use vstd::prelude::*;

pub mod calls;
pub mod fairness;
pub mod promises;
pub mod runs;

verus! {

/// A client's stream, with the bytes that wait on either side of it.
///
/// `S` is the stream, `W` what wakes a task.
pub struct Socket<S, W> {
    /// What is still to be written to the client.
    pub write_buffer: BytesMut,
    /// What the client sent and no message was made of yet.
    pub read_buffer: BytesMut,
    pub stream: S,
    /// Whom to wake when there is something to write again.
    pub waker: Option<W>,
}

/// What a [`Socket`] holds.
#[verifier::ext_equal]
pub struct SocketView<S, W> {
    pub pending: Seq<u8>,
    pub incoming: Seq<u8>,
    pub stream: S,
    pub waker: Option<W>,
}

impl<S, W> SocketView<S, W> {
    /// A stream that nothing was read from and nothing is to be written to.
    pub open spec fn fresh(stream: S) -> Self {
        SocketView { pending: seq![], incoming: seq![], stream, waker: None }
    }

    /// The socket once `bytes` joined what is to be written.
    pub open spec fn sent(self, bytes: Seq<u8>) -> Self {
        SocketView { pending: self.pending + bytes, waker: None, ..self }
    }

    /// Someone waits for something to write only while there is nothing to write.
    pub open spec fn sound(self) -> bool {
        self.waker is Some ==> self.pending.len() == 0
    }

    /// There is room in memory for `bytes` to join what is to be written.
    pub open spec fn has_room(self, bytes: Seq<u8>) -> bool {
        self.pending.len() + bytes.len() <= isize::MAX
    }
}

impl<S, W> View for Socket<S, W> {
    type V = SocketView<S, W>;

    open spec fn view(&self) -> SocketView<S, W> {
        SocketView {
            pending: unread(self.write_buffer),
            incoming: unread(self.read_buffer),
            stream: self.stream,
            waker: self.waker,
        }
    }
}

/// How far a call of [`Socket::poll_send`] has come.
pub enum SendEvent<W, E> {
    /// The call begins, on behalf of the task that `W` wakes.
    Begin(W),
    /// What polling the stream for readiness to write gave.
    WriteReady(Poll<()>),
    /// What trying to write the buffer gave: how many bytes were written.
    Wrote(Result<usize, E>),
}

/// What [`Socket::poll_send`] does next.
#[derive(Debug, PartialEq, Eq)]
pub enum SendAction {
    PollWriteReady,
    /// Try to write the socket's write buffer.
    TryWrite,
    Return(Poll<()>),
}

/// How far a call of [`Socket::poll_read`] has come.
pub enum ReadEvent<E> {
    Begin,
    /// What polling the stream for readiness to read gave.
    ReadReady(Poll<()>),
    /// What trying to read into the read buffer gave: how many bytes joined it.
    Read(Result<usize, E>),
}

/// What [`Socket::poll_read`] does next.
#[derive(Debug, PartialEq, Eq)]
pub enum ReadAction {
    PollReadReady,
    /// Try to read into the socket's read buffer.
    TryRead,
    /// Where the result is ready, the read buffer holds what was read.
    Return(Poll<()>),
}

/// What [`Socket::poll_send`] does after `event`, and the socket then.
pub open spec fn send_step<S, W, E>(socket: SocketView<S, W>, event: SendEvent<W, E>) -> (
    SendAction,
    SocketView<S, W>,
) {
    match event {
        SendEvent::Begin(waker) => if socket.pending.len() == 0 {
            (
                SendAction::Return(Poll::Pending),
                SocketView { waker: Some(waker), ..socket },
            )
        } else {
            (SendAction::PollWriteReady, socket)
        },
        SendEvent::WriteReady(ready) => (
            match ready {
                Poll::Ready(_) => SendAction::TryWrite,
                Poll::Pending => SendAction::Return(Poll::Pending),
            },
            socket,
        ),
        SendEvent::Wrote(Ok(n)) => (
            SendAction::Return(Poll::Ready(())),
            SocketView { pending: socket.pending.skip(n as int), ..socket },
        ),
        SendEvent::Wrote(Err(_)) => (SendAction::PollWriteReady, socket),
    }
}

/// What [`Socket::poll_read`] does after `event`.
pub open spec fn read_step<E>(event: ReadEvent<E>) -> ReadAction {
    match event {
        ReadEvent::Begin => ReadAction::PollReadReady,
        ReadEvent::ReadReady(Poll::Ready(_)) => ReadAction::TryRead,
        ReadEvent::ReadReady(Poll::Pending) => ReadAction::Return(Poll::Pending),
        ReadEvent::Read(Ok(_)) => ReadAction::Return(Poll::Ready(())),
        ReadEvent::Read(Err(_)) => ReadAction::PollReadReady,
    }
}

impl<S, W> Socket<S, W> {
    pub fn new(stream: S) -> (socket: Socket<S, W>)
        ensures
            socket@ == SocketView::<S, W>::fresh(stream),
            socket@.sound(),
    {
        let socket = Socket {
            write_buffer: BytesMut::new(),
            read_buffer: BytesMut::new(),
            stream,
            waker: None,
        };
        assert(socket@ =~= SocketView::<S, W>::fresh(stream));
        socket
    }

    /// Schedules `buf` to be written after all that was scheduled before. What is
    /// returned has to be woken: it waited for something to write.
    pub fn send(&mut self, buf: &[u8]) -> (woken: Option<W>)
        requires
            old(self)@.has_room(buf@),
        ensures
            final(self)@ == old(self)@.sent(buf@),
            woken == old(self)@.waker,
            final(self)@.sound(),
    {
        self.write_buffer.put_slice(buf);
        self.waker.take()
    }

    /// One step of writing what is to be written. With nothing to write, the task
    /// is remembered and the answer is `Pending`. Otherwise a stream that is ready
    /// is offered the buffer, and what it took leaves the buffer; a stream that
    /// takes nothing is polled again.
    pub fn poll_send<E>(&mut self, event: SendEvent<W, E>) -> (action: SendAction)
        requires
            event matches SendEvent::Wrote(Ok(n)) ==> n <= old(self)@.pending.len(),
        ensures
            (action, final(self)@) == send_step(old(self)@, event),
            old(self)@.sound() ==> final(self)@.sound(),
    {
        match event {
            SendEvent::Begin(waker) => if self.write_buffer.is_empty() {
                self.waker = Some(waker);
                SendAction::Return(Poll::Pending)
            } else {
                SendAction::PollWriteReady
            },
            SendEvent::WriteReady(ready) => match ready {
                Poll::Ready(_) => SendAction::TryWrite,
                Poll::Pending => SendAction::Return(Poll::Pending),
            },
            SendEvent::Wrote(Ok(n)) => {
                self.write_buffer.advance(n);
                SendAction::Return(Poll::Ready(()))
            },
            SendEvent::Wrote(Err(_)) => SendAction::PollWriteReady,
        }
    }

    /// One step of reading. A stream that is ready is read into the read buffer; a
    /// stream that gives nothing is polled again.
    pub fn poll_read<E>(&self, event: ReadEvent<E>) -> (action: ReadAction)
        ensures
            action == read_step(event),
    {
        match event {
            ReadEvent::Begin => ReadAction::PollReadReady,
            ReadEvent::ReadReady(Poll::Ready(_)) => ReadAction::TryRead,
            ReadEvent::ReadReady(Poll::Pending) => ReadAction::Return(Poll::Pending),
            ReadEvent::Read(Ok(_)) => ReadAction::Return(Poll::Ready(())),
            ReadEvent::Read(Err(_)) => ReadAction::PollReadReady,
        }
    }
}

/// The connected clients. A client's ID is its place among them.
pub struct Router<S, W> {
    pub connections: Vec<Socket<S, W>>,
}

impl<S, W> View for Router<S, W> {
    type V = Seq<SocketView<S, W>>;

    open spec fn view(&self) -> Seq<SocketView<S, W>> {
        self.connections@.map_values(|socket: Socket<S, W>| socket@)
    }
}

/// The clients once `stream` was connected. Its ID, the number of those before it,
/// is the first thing to be written to it.
pub open spec fn joined<S, W>(clients: Seq<SocketView<S, W>>, stream: S) -> Seq<
    SocketView<S, W>,
> {
    clients.push(SocketView::fresh(stream).sent(network_bytes(clients.len() as u32)))
}

/// The message that `from` sent, if it is whole, is for a client that is connected
/// and has room for it.
pub open spec fn can_deliver<S, W>(clients: Seq<SocketView<S, W>>, from: int) -> bool {
    parse(clients[from].incoming) matches Some((dest, payload, _)) ==> {
        &&& dest < clients.len()
        &&& clients[dest as int].has_room(payload)
    }
}

/// The clients once `from` was read from, and whoever is to be woken. Where `from`
/// sent a whole message, it leaves the bytes that `from` sent, and its payload
/// joins what is to be written to its destination.
pub open spec fn delivered<S, W>(clients: Seq<SocketView<S, W>>, from: int) -> (
    Seq<SocketView<S, W>>,
    Option<W>,
) {
    match parse(clients[from].incoming) {
        Some((dest, payload, rest)) => {
            let taken = clients.update(from, SocketView { incoming: rest, ..clients[from] });
            (
                taken.update(dest as int, taken[dest as int].sent(payload)),
                taken[dest as int].waker,
            )
        },
        None => (clients, None),
    }
}

/// What came of looking for a message.
pub struct Delivery<W> {
    /// There was one.
    pub taken: bool,
    /// Whoever waited for something to write to its destination, and has to be woken.
    pub woken: Option<W>,
}

/// How far a call of [`Router::poll_next`] has come: what is polled next.
#[derive(Debug, Clone, Copy, PartialEq, Eq, Structural)]
pub enum Pass {
    PollAccept,
    /// Poll the client at this place for writing.
    PollSend(usize),
    /// Poll the client at this place for reading.
    PollRead(usize),
    /// Everything was polled: the answer is `Pending`.
    Return,
}

/// What came of a poll that [`Router::poll_next`] asked for.
pub enum Event<S, E> {
    Accepted(Poll<Result<S, E>>),
    /// The client's [`Socket::poll_send`] returned.
    Sent(Poll<()>),
    /// The client's [`Socket::poll_read`] returned.
    Read(Poll<()>),
}

/// What is to be done in answer to an [`Event`].
pub struct Step<W> {
    /// The client that was read from may have sent another message: the event is to be
    /// handed in again, before anything else is polled.
    pub again: bool,
    /// The task itself has to be polled again at once.
    pub wake: bool,
    /// Whoever waited for something to write to a client.
    pub waker: Option<W>,
    pub next: Pass,
}

/// Reading from the clients from place `i` on.
pub open spec fn read_from(i: int, clients: nat) -> Pass {
    if i < clients {
        Pass::PollRead(i as usize)
    } else {
        Pass::Return
    }
}

/// Writing to the clients from place `i` on, and then reading from all.
pub open spec fn send_from(i: int, clients: nat) -> Pass {
    if i < clients {
        Pass::PollSend(i as usize)
    } else {
        read_from(0, clients)
    }
}

/// The event answers what was polled, and who was polled is connected.
pub open spec fn awaits<S, E>(pass: Pass, event: Event<S, E>, clients: nat) -> bool {
    match event {
        Event::Accepted(_) => pass == Pass::PollAccept,
        Event::Sent(_) => pass matches Pass::PollSend(i) && i < clients,
        Event::Read(_) => pass matches Pass::PollRead(i) && i < clients,
    }
}

/// What `event` makes of the clients.
pub open spec fn clients_after<S, W, E>(
    clients: Seq<SocketView<S, W>>,
    pass: Pass,
    event: Event<S, E>,
) -> Seq<SocketView<S, W>> {
    match event {
        Event::Accepted(Poll::Ready(Ok(stream))) => joined(clients, stream),
        Event::Read(Poll::Ready(_)) => delivered(clients, pass->PollRead_0 as int).0,
        _ => clients,
    }
}

/// The client that was read from sent a whole message, and may have sent another.
pub open spec fn hands_in_again<S, W, E>(
    clients: Seq<SocketView<S, W>>,
    pass: Pass,
    event: Event<S, E>,
) -> bool {
    &&& event matches Event::Read(Poll::Ready(_))
    &&& parse(clients[pass->PollRead_0 as int].incoming) is Some
}

/// What is polled after `event`. The listener is polled until nobody connects, and
/// each client is polled for writing until it is pending. Where the event is to be handed
/// in again, nothing else is polled.
pub open spec fn pass_after<S, E>(
    pass: Pass,
    event: Event<S, E>,
    again: bool,
    clients: nat,
) -> Pass {
    match event {
        Event::Accepted(Poll::Ready(Ok(_))) => Pass::PollAccept,
        Event::Accepted(_) => send_from(0, clients),
        Event::Sent(Poll::Ready(_)) => pass,
        Event::Sent(Poll::Pending) => send_from(pass->PollSend_0 + 1, clients),
        Event::Read(_) => if again {
            pass
        } else {
            read_from(pass->PollRead_0 + 1, clients)
        },
    }
}

/// The listener or a client was polled for the last time in the pass and was not
/// pending, so that it wakes nobody later: the task is to be polled again at once.
pub open spec fn wakes<S, E>(event: Event<S, E>) -> bool {
    match event {
        Event::Accepted(outcome) => outcome matches Poll::Ready(Err(_)),
        Event::Sent(_) => false,
        Event::Read(outcome) => outcome is Ready,
    }
}

impl<S, W> Router<S, W> {
    pub fn new() -> (router: Router<S, W>)
        ensures
            router@ == Seq::<SocketView<S, W>>::empty(),
    {
        let router = Router { connections: Vec::new() };
        assert(router@ =~= Seq::<SocketView<S, W>>::empty());
        router
    }

    /// Connects a client. Its ID is the first thing to be written to it.
    pub fn join(&mut self, stream: S)
        ensures
            final(self)@ == joined(old(self)@, stream),
    {
        let ghost before = self@;
        let mut socket = Socket::new(stream);
        let id: [u8; 4] = to_network(self.connections.len() as u32);
        socket.send(id.as_slice());
        self.connections.push(socket);
        assert(self@ =~= joined(before, stream));
    }

    /// Makes a message of what the client `from` sent, where it sent a whole one,
    /// and schedules it for its destination.
    pub fn deliver(&mut self, from: usize) -> (delivery: Delivery<W>)
        requires
            from < old(self)@.len(),
            can_deliver(old(self)@, from as int),
        ensures
            (final(self)@, delivery.woken) == delivered(old(self)@, from as int),
            delivery.taken == (parse(old(self)@[from as int].incoming) is Some),
    {
        let ghost before = self@;
        match parse_message(&mut self.connections[from].read_buffer) {
            Ok((dest, payload)) => {
                let ghost taken = self@;
                proof {
                    let rest = parse(before[from as int].incoming).unwrap().2;
                    assert(taken =~= before.update(
                        from as int,
                        SocketView { incoming: rest, ..before[from as int] },
                    ));
                    assert(taken[dest as int] == self.connections@[dest as int]@);
                }
                let woken = self.connections[dest as usize].send(content_slice(&payload));
                assert(self@ =~= taken.update(
                    dest as int,
                    taken[dest as int].sent(content(payload)),
                ));
                Delivery { taken: true, woken }
            },
            Err(_) => {
                assert(self@ =~= before);
                Delivery { taken: false, woken: None }
            },
        }
    }

    fn reading_from(&self, i: usize) -> (pass: Pass)
        ensures
            pass == read_from(i as int, self@.len()),
    {
        if i < self.connections.len() {
            Pass::PollRead(i)
        } else {
            Pass::Return
        }
    }

    fn sending_from(&self, i: usize) -> (pass: Pass)
        ensures
            pass == send_from(i as int, self@.len()),
    {
        if i < self.connections.len() {
            Pass::PollSend(i)
        } else {
            self.reading_from(0)
        }
    }

    /// One step of polling everything: the listener until nobody connects, then
    /// every client for writing until it is pending, then every client once for
    /// reading. Where a client was read from, or the listener failed, the task asks to
    /// be polled again. Of what was read, one message is delivered at a time.
    pub fn poll_next<E>(&mut self, pass: Pass, event: Event<S, E>) -> (step: Step<W>)
        requires
            awaits(pass, event, old(self)@.len()),
            event matches Event::Read(Poll::Ready(_)) ==> can_deliver(
                old(self)@,
                pass->PollRead_0 as int,
            ),
        ensures
            final(self)@ == clients_after(old(self)@, pass, event),
            step.again == hands_in_again(old(self)@, pass, event),
            step.next == pass_after(pass, event, step.again, final(self)@.len()),
            step.wake == wakes(event),
            step.waker == match event {
                Event::Read(Poll::Ready(_)) => delivered(old(self)@, pass->PollRead_0 as int).1,
                _ => None,
            },
    {
        assert(self@.len() == self.connections.len());
        match (pass, event) {
            (_, Event::Accepted(Poll::Ready(Ok(stream)))) => {
                self.join(stream);
                Step { again: false, wake: false, waker: None, next: Pass::PollAccept }
            },
            (_, Event::Accepted(outcome)) => Step {
                again: false,
                wake: outcome.is_ready(),
                waker: None,
                next: self.sending_from(0),
            },
            (Pass::PollSend(i), Event::Sent(Poll::Pending)) => Step {
                again: false,
                wake: false,
                waker: None,
                next: self.sending_from(i + 1),
            },
            (Pass::PollRead(i), Event::Read(outcome)) => {
                let wake: bool = outcome.is_ready();
                let delivery: Delivery<W> = match outcome {
                    Poll::Ready(_) => self.deliver(i),
                    Poll::Pending => Delivery { taken: false, woken: None },
                };
                let next: Pass = if delivery.taken {
                    pass
                } else {
                    self.reading_from(i + 1)
                };
                Step { again: delivery.taken, wake, waker: delivery.woken, next }
            },
            (_, _) => Step { again: false, wake: false, waker: None, next: pass },
        }
    }
}

/// A new client is owed its ID in network order and nothing else, and everyone
/// else keeps the ID and the bytes that they had.
pub proof fn law_greeted_first<S, W>(clients: Seq<SocketView<S, W>>, stream: S)
    ensures
        joined(clients, stream).len() == clients.len() + 1,
        joined(clients, stream).last().pending == network_bytes(clients.len() as u32),
        joined(clients, stream).last().incoming == Seq::<u8>::empty(),
        joined(clients, stream).drop_last() == clients,
{
    assert(joined(clients, stream).drop_last() =~= clients);
    assert(joined(clients, stream).last().pending =~= network_bytes(clients.len() as u32));
}

/// A whole message reaches the client that it names: the body and its null byte,
/// without the ID, follow what that client was owed. It is gone from what the
/// sender sent, and nobody else notices.
pub proof fn law_message_forwarded<S, W>(
    clients: Seq<SocketView<S, W>>,
    from: int,
    dest: u32,
    body: Seq<u8>,
    rest: Seq<u8>,
)
    requires
        0 <= from < clients.len(),
        dest < clients.len(),
        is_body(body),
        clients[from].incoming == encode(dest, body) + rest,
    ensures
        ({
            let (after, woken) = delivered(clients, from);
            &&& after.len() == clients.len()
            &&& after[dest as int].pending == clients[dest as int].pending + body.push(0)
            &&& after[from].incoming == rest
            &&& woken == clients[dest as int].waker
            &&& from != dest ==> {
                &&& after[dest as int].incoming == clients[dest as int].incoming
                &&& after[from].pending == clients[from].pending
            }
            &&& forall|other: int|
                0 <= other < clients.len() && other != from && other != dest
                    ==> #[trigger] after[other] == clients[other]
        }),
{
    law_encoded_is_parsed(dest, body, rest);
}

/// Someone waits for something to write to a client only while there is nothing to
/// write, whoever joins and whatever is delivered: nothing is scheduled for a
/// client without waking whoever waited for it.
pub proof fn law_waiting_means_nothing_to_write<S, W>(
    clients: Seq<SocketView<S, W>>,
    stream: S,
    from: int,
)
    requires
        forall|i: int| 0 <= i < clients.len() ==> (#[trigger] clients[i]).sound(),
        0 <= from < clients.len(),
        can_deliver(clients, from),
    ensures
        forall|i: int|
            0 <= i < joined(clients, stream).len() ==> (#[trigger] joined(
                clients,
                stream,
            )[i]).sound(),
        forall|i: int|
            0 <= i < delivered(clients, from).0.len() ==> (#[trigger] delivered(
                clients,
                from,
            ).0[i]).sound(),
{
    assert forall|i: int| 0 <= i < delivered(clients, from).0.len() implies (
    #[trigger] delivered(clients, from).0[i]).sound() by {
        assert(clients[i].sound());
        assert(clients[from].sound());
    }
}

/// The clients once `from` was read from `n` times.
pub open spec fn delivered_often<S, W>(
    clients: Seq<SocketView<S, W>>,
    from: int,
    n: nat,
) -> Seq<SocketView<S, W>>
    decreases n,
{
    if n == 0 {
        clients
    } else {
        delivered_often(delivered(clients, from).0, from, (n - 1) as nat)
    }
}

/// Reading from a client often enough forwards all messages that it sent, each to
/// the client that it names and in the order in which they were sent, and leaves
/// what is not a whole message yet.
pub proof fn law_all_messages_forwarded_in_order<S, W>(
    clients: Seq<SocketView<S, W>>,
    from: int,
)
    requires
        0 <= from < clients.len(),
        forall|i: int|
            0 <= i < messages(clients[from].incoming).len() ==> (#[trigger] messages(
                clients[from].incoming,
            )[i]).0 < clients.len(),
    ensures
        ({
            let mail = messages(clients[from].incoming);
            let after = delivered_often(clients, from, mail.len());
            &&& after.len() == clients.len()
            &&& after[from].incoming == leftover(clients[from].incoming)
            &&& forall|id: int|
                0 <= id < clients.len() && id <= u32::MAX ==> (#[trigger] after[id]).pending
                    == clients[id].pending + addressed(mail, id as u32)
            &&& forall|id: int|
                0 <= id < clients.len() && id != from ==> (#[trigger] after[id]).incoming
                    == clients[id].incoming
        }),
    decreases clients[from].incoming.len(),
{
    let stream = clients[from].incoming;
    let mail = messages(stream);
    let after = delivered_often(clients, from, mail.len());
    law_one_at_a_time(stream);
    if let Some((dest, payload, rest)) = parse(stream) {
        law_parsed_is_encoded(stream);
        assert(mail[0].0 == dest);
        let once = delivered(clients, from).0;
        assert(once.len() == clients.len());
        assert forall|i: int| 0 <= i < messages(rest).len() implies (#[trigger] messages(
            rest,
        )[i]).0 < once.len() by {
            assert(messages(rest)[i] == mail[i + 1]);
        }
        law_all_messages_forwarded_in_order(once, from);
        assert(after == delivered_often(once, from, mail.drop_first().len()));
        assert forall|id: int| 0 <= id < clients.len() && id <= u32::MAX implies (
        #[trigger] after[id]).pending == clients[id].pending + addressed(mail, id as u32) by {
            lemma_addressed_first(mail, id as u32, clients[id].pending);
            assert(once[id].pending == if id == dest {
                clients[id].pending + payload
            } else {
                clients[id].pending
            });
        }
    } else {
        assert forall|id: int| 0 <= id < clients.len() && id <= u32::MAX implies (
        #[trigger] after[id]).pending == clients[id].pending + addressed(mail, id as u32) by {
            assert(clients[id].pending + addressed(mail, id as u32) =~= clients[id].pending);
        }
    }
}

/// No client sent a whole message that was not delivered yet.
pub open spec fn settled<S, W>(clients: Seq<SocketView<S, W>>) -> bool {
    forall|i: int| 0 <= i < clients.len() ==> parse((#[trigger] clients[i]).incoming) is None
}

/// Once the event of a read was handed in until there is nothing to deliver, nobody has
/// sent a whole message that was not delivered, if that held of the others: no message
/// waits for more bytes to come.
pub proof fn law_settled_again<S, W>(clients: Seq<SocketView<S, W>>, from: int)
    requires
        0 <= from < clients.len(),
        forall|i: int|
            0 <= i < messages(clients[from].incoming).len() ==> (#[trigger] messages(
                clients[from].incoming,
            )[i]).0 < clients.len(),
        forall|i: int|
            0 <= i < clients.len() && i != from ==> parse((#[trigger] clients[i]).incoming) is None,
    ensures
        settled(delivered_often(clients, from, messages(clients[from].incoming).len())),
{
    law_all_messages_forwarded_in_order(clients, from);
    law_leftover_is_incomplete(clients[from].incoming);
    let after = delivered_often(clients, from, messages(clients[from].incoming).len());
    assert forall|i: int| 0 <= i < after.len() implies parse(
        (#[trigger] after[i]).incoming,
    ) is None by {
        assert(i != from ==> after[i].incoming == clients[i].incoming);
    }
}

} // verus!
