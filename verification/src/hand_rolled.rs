//! A single task that polls the listener and every socket itself, and reacts to
//! whatever is ready.
//!
//! Whoever runs the task performs the polls. It asks [`Server::poll_next`],
//! [`Socket::poll_send`] and [`Socket::poll_read`] what to poll, and hands them
//! what came of it.

use crate::buffers::{content, contents, unread};
use crate::identity::{draw, drawn, greeting};
use crate::message::{addressed, encode, is_body, leftover, messages, parse};
use crate::message::lemma_addressed_first;
use crate::message::{law_encoded_is_parsed, law_one_at_a_time, law_parsed_is_encoded};
use crate::message::{law_leftover_is_incomplete, parse_message};
use crate::poll::{Poll, Refusal};
use crate::queue::{advance_front, law_push_appends, law_written_skips, written};
use crate::table::{find_mut, keys_of, lists};
use crate::wire::network_bytes;
use bytes::{Bytes, BytesMut};
use std::collections::{HashMap, VecDeque};
use vstd::prelude::*;

pub mod calls;
pub mod fairness;
pub mod promises;
pub mod runs;

verus! {

broadcast use {
    vstd::std_specs::hash::group_hash_axioms,
    vstd::std_specs::vecdeque::group_vec_dequeue_axioms,
};

/// A client's stream, with the bytes that wait on either side of it.
///
/// `S` is the stream, `W` what wakes a task.
pub struct Socket<S, W> {
    /// What is still to be written to the client.
    pub write_buffers: VecDeque<Bytes>,
    /// What the client sent and no message was made of yet.
    pub read_buffer: BytesMut,
    pub stream: S,
    /// Whom to wake when there is something to write again.
    pub waker: Option<W>,
}

/// What a [`Socket`] holds.
#[verifier::ext_equal]
pub struct SocketView<S, W> {
    pub outgoing: Seq<Seq<u8>>,
    pub incoming: Seq<u8>,
    pub stream: S,
    pub waker: Option<W>,
}

impl<S, W> SocketView<S, W> {
    /// A stream that nothing was read from and nothing is to be written to.
    pub open spec fn fresh(stream: S) -> Self {
        SocketView { outgoing: seq![], incoming: seq![], stream, waker: None }
    }

    /// The socket once `bytes` joined what is to be written.
    pub open spec fn sent(self, bytes: Seq<u8>) -> Self {
        SocketView { outgoing: self.outgoing.push(bytes), waker: None, ..self }
    }

    /// Someone waits for something to write only while there is nothing to write.
    pub open spec fn sound(self) -> bool {
        self.waker is Some ==> self.outgoing.len() == 0
    }

    /// All bytes that are still to be written, in order.
    pub open spec fn pending(self) -> Seq<u8> {
        self.outgoing.flatten()
    }
}

impl<S, W> View for Socket<S, W> {
    type V = SocketView<S, W>;

    open spec fn view(&self) -> SocketView<S, W> {
        SocketView {
            outgoing: contents(self.write_buffers@),
            incoming: unread(self.read_buffer),
            stream: self.stream,
            waker: self.waker,
        }
    }
}

/// How far a call of [`Socket::poll_send`] has come.
pub enum SendEvent<W, E> {
    /// The call begins, on behalf of the task that `W` wakes.
    Begin(W),
    /// What polling the stream for readiness to write gave.
    WriteReady(Poll<Result<(), E>>),
    /// What trying to write [`Socket::front`] gave: how many bytes were written.
    Wrote(Result<usize, Refusal<E>>),
}

/// What [`Socket::poll_send`] does next.
pub enum SendAction<E> {
    PollWriteReady,
    /// Try to write [`Socket::front`].
    TryWrite,
    Return(Poll<Result<(), E>>),
}

/// How far a call of [`Socket::poll_read`] has come.
pub enum ReadEvent<E> {
    Begin,
    /// What polling the stream for readiness to read gave.
    ReadReady(Poll<Result<(), E>>),
    /// What trying to read into the read buffer gave: how many bytes joined it.
    Read(Result<usize, Refusal<E>>),
}

/// What [`Socket::poll_read`] does next.
pub enum ReadAction<E> {
    PollReadReady,
    /// Try to read into the socket's read buffer.
    TryRead,
    /// Where the result is ready and no error, the read buffer holds what was read.
    Return(Poll<Result<(), E>>),
}

/// What [`Socket::poll_send`] does after `event`, and the socket then.
pub open spec fn send_step<S, W, E>(socket: SocketView<S, W>, event: SendEvent<W, E>) -> (
    SendAction<E>,
    SocketView<S, W>,
) {
    match event {
        SendEvent::Begin(waker) => if socket.outgoing.len() == 0 {
            (
                SendAction::Return(Poll::Pending),
                SocketView { waker: Some(waker), ..socket },
            )
        } else {
            (SendAction::PollWriteReady, socket)
        },
        SendEvent::WriteReady(ready) => (
            match ready {
                Poll::Ready(Ok(_)) => SendAction::TryWrite,
                _ => SendAction::Return(ready),
            },
            socket,
        ),
        SendEvent::Wrote(Ok(n)) => (
            SendAction::Return(Poll::Ready(Ok(()))),
            SocketView { outgoing: written(socket.outgoing, n as int), ..socket },
        ),
        SendEvent::Wrote(Err(refusal)) => (
            if refusal.would_block {
                SendAction::PollWriteReady
            } else {
                SendAction::Return(Poll::Ready(Err(refusal.error)))
            },
            socket,
        ),
    }
}

/// What [`Socket::poll_read`] does after `event`.
pub open spec fn read_step<E>(event: ReadEvent<E>) -> ReadAction<E> {
    match event {
        ReadEvent::Begin => ReadAction::PollReadReady,
        ReadEvent::ReadReady(Poll::Ready(Ok(_))) => ReadAction::TryRead,
        ReadEvent::ReadReady(ready) => ReadAction::Return(ready),
        ReadEvent::Read(Ok(_)) => ReadAction::Return(Poll::Ready(Ok(()))),
        ReadEvent::Read(Err(refusal)) => if refusal.would_block {
            ReadAction::PollReadReady
        } else {
            ReadAction::Return(Poll::Ready(Err(refusal.error)))
        },
    }
}

impl<S, W> Socket<S, W> {
    pub fn new(stream: S) -> (socket: Socket<S, W>)
        ensures
            socket@ == SocketView::<S, W>::fresh(stream),
            socket@.sound(),
    {
        let socket = Socket {
            write_buffers: VecDeque::new(),
            read_buffer: BytesMut::new(),
            stream,
            waker: None,
        };
        assert(socket@ =~= SocketView::<S, W>::fresh(stream));
        socket
    }

    /// Schedules `buf` to be written after all that was scheduled before. What is
    /// returned has to be woken: it waited for something to write.
    pub fn send(&mut self, buf: Bytes) -> (woken: Option<W>)
        ensures
            final(self)@ == old(self)@.sent(content(buf)),
            woken == old(self)@.waker,
            final(self)@.sound(),
    {
        let ghost before = self@;
        self.write_buffers.push_back(buf);
        let woken = self.waker.take();
        assert(self@ =~= before.sent(content(buf)));
        woken
    }

    /// The buffer that is offered to the stream: the one that waited longest.
    pub fn front(&self) -> (front: Option<&Bytes>)
        ensures
            match front {
                Some(buffer) => {
                    &&& self@.outgoing.len() > 0
                    &&& content(*buffer) == self@.outgoing[0]
                },
                None => self@.outgoing.len() == 0,
            },
    {
        if self.write_buffers.len() == 0 {
            None
        } else {
            Some(&self.write_buffers[0])
        }
    }

    /// One step of writing what is to be written. With nothing to write, the task
    /// is remembered and the answer is `Pending`. Otherwise a stream that is ready
    /// is offered the first buffer, and what it took leaves the buffers; a stream
    /// that turns out not to be ready is polled again.
    pub fn poll_send<E>(&mut self, event: SendEvent<W, E>) -> (action: SendAction<E>)
        requires
            event matches SendEvent::Wrote(Ok(n)) ==> {
                &&& old(self)@.outgoing.len() > 0
                &&& n <= old(self)@.outgoing[0].len()
            },
        ensures
            (action, final(self)@) == send_step(old(self)@, event),
            old(self)@.sound() ==> final(self)@.sound(),
    {
        match event {
            SendEvent::Begin(waker) => if self.write_buffers.len() == 0 {
                self.waker = Some(waker);
                SendAction::Return(Poll::Pending)
            } else {
                SendAction::PollWriteReady
            },
            SendEvent::WriteReady(ready) => match ready {
                Poll::Ready(Ok(_)) => SendAction::TryWrite,
                Poll::Ready(Err(error)) => SendAction::Return(Poll::Ready(Err(error))),
                Poll::Pending => SendAction::Return(Poll::Pending),
            },
            SendEvent::Wrote(Ok(n)) => {
                advance_front(&mut self.write_buffers, n);
                SendAction::Return(Poll::Ready(Ok(())))
            },
            SendEvent::Wrote(Err(refusal)) => if refusal.would_block {
                SendAction::PollWriteReady
            } else {
                SendAction::Return(Poll::Ready(Err(refusal.error)))
            },
        }
    }

    /// One step of reading. A stream that is ready is read into the read buffer; a
    /// stream that turns out not to be ready is polled again.
    pub fn poll_read<E>(&self, event: ReadEvent<E>) -> (action: ReadAction<E>)
        ensures
            action == read_step(event),
    {
        match event {
            ReadEvent::Begin => ReadAction::PollReadReady,
            ReadEvent::ReadReady(ready) => match ready {
                Poll::Ready(Ok(_)) => ReadAction::TryRead,
                Poll::Ready(Err(error)) => ReadAction::Return(Poll::Ready(Err(error))),
                Poll::Pending => ReadAction::Return(Poll::Pending),
            },
            ReadEvent::Read(Ok(_)) => ReadAction::Return(Poll::Ready(Ok(()))),
            ReadEvent::Read(Err(refusal)) => if refusal.would_block {
                ReadAction::PollReadReady
            } else {
                ReadAction::Return(Poll::Ready(Err(refusal.error)))
            },
        }
    }
}

/// The connected clients.
#[verifier::reject_recursive_types(S)]
#[verifier::reject_recursive_types(W)]
pub struct Server<S, W> {
    pub connections: HashMap<u32, Socket<S, W>>,
}

impl<S, W> View for Server<S, W> {
    type V = Map<u32, SocketView<S, W>>;

    open spec fn view(&self) -> Map<u32, SocketView<S, W>> {
        self.connections@.map_values(|socket: Socket<S, W>| socket@)
    }
}

/// The clients once `stream` was connected under `id`: the ID is the first thing
/// to be written to it.
pub open spec fn joined<S, W>(
    clients: Map<u32, SocketView<S, W>>,
    stream: S,
    id: u32,
) -> Map<u32, SocketView<S, W>> {
    clients.insert(id, SocketView::fresh(stream).sent(network_bytes(id)))
}

/// The clients once `from` was read from, and whoever is to be woken. Where
/// `from` sent a whole message, it leaves the bytes that `from` sent, and its
/// payload joins what is to be written to its destination. A destination that is
/// not connected gets nothing.
pub open spec fn delivered<S, W>(clients: Map<u32, SocketView<S, W>>, from: u32) -> (
    Map<u32, SocketView<S, W>>,
    Option<W>,
) {
    match parse(clients[from].incoming) {
        Some((dest, payload, rest)) => {
            let taken = clients.insert(from, SocketView { incoming: rest, ..clients[from] });
            if taken.contains_key(dest) {
                (taken.insert(dest, taken[dest].sent(payload)), taken[dest].waker)
            } else {
                (taken, None)
            }
        },
        None => (clients, None),
    }
}

/// What came of looking for a message.
pub struct Delivery<W> {
    /// There was one.
    pub taken: bool,
    /// Whoever waited for something to write to its destination, and has to be woken.
    pub woken: Option<W>,
}

/// What a call of [`Server::poll_next`] is about.
#[derive(Debug, Clone, Copy, PartialEq, Eq, Structural)]
pub enum Stage {
    Accepting,
    Sending,
    Reading,
    Finished,
}

/// How far a call of [`Server::poll_next`] has come.
pub struct Pass {
    stage: Stage,
    /// The clients that this stage has still to poll, the next one last.
    keys: Vec<u32>,
}

/// What a [`Pass`] holds.
pub struct PassView {
    pub stage: Stage,
    pub todo: Seq<u32>,
}

/// What came of a poll that [`Server::poll_next`] asked for.
pub enum Event<S, E> {
    Accepted(Poll<Result<S, E>>),
    /// The client's [`Socket::poll_send`] returned.
    Sent(Poll<Result<(), E>>),
    /// The client's [`Socket::poll_read`] returned.
    Read(Poll<Result<(), E>>),
}

/// What [`Server::poll_next`] polls next.
#[derive(Debug, Clone, Copy, PartialEq, Eq, Structural)]
pub enum Action {
    PollAccept,
    PollSend(u32),
    PollRead(u32),
    /// Everything was polled: the answer is `Pending`.
    Return,
}

/// What is to be done in answer to an [`Event`].
pub struct Step<W, E> {
    /// The client that was read from may have sent another message: the event is to be
    /// handed in again, before anything else is polled.
    pub again: bool,
    /// The task itself has to be polled again at once.
    pub wake: bool,
    /// Whoever waited for something to write to a client.
    pub waker: Option<W>,
    /// A client that could not be read from and is gone.
    pub failed: Option<(u32, E)>,
    pub action: Action,
}

impl View for Pass {
    type V = PassView;

    closed spec fn view(&self) -> PassView {
        PassView { stage: self.stage, todo: self.keys@ }
    }
}

impl PassView {
    pub open spec fn started() -> PassView {
        PassView { stage: Stage::Accepting, todo: seq![] }
    }

    /// What is polled next: in the later stages, the last of those still to do.
    pub open spec fn action(self) -> Action {
        match self.stage {
            Stage::Accepting => Action::PollAccept,
            Stage::Sending => Action::PollSend(self.todo.last()),
            Stage::Reading => Action::PollRead(self.todo.last()),
            Stage::Finished => Action::Return,
        }
    }

    /// The event answers what was polled.
    pub open spec fn awaits<S, E>(self, event: Event<S, E>) -> bool {
        match event {
            Event::Accepted(_) => self.stage == Stage::Accepting,
            Event::Sent(_) => self.stage == Stage::Sending,
            Event::Read(_) => self.stage == Stage::Reading,
        }
    }

    /// Some client is still to be polled if and only if one is polled next.
    pub open spec fn consistent(self) -> bool {
        self.todo.len() > 0 <==> self.stage == Stage::Sending || self.stage == Stage::Reading
    }

    /// Those still to be polled are connected, and each is named once.
    pub open spec fn valid(self, ids: Set<u32>) -> bool {
        &&& self.consistent()
        &&& self.todo.no_duplicates()
        &&& forall|i: int| 0 <= i < self.todo.len() ==> ids.contains(#[trigger] self.todo[i])
    }
}

/// What `event` makes of the clients and of the pass, and what it calls for.
pub open spec fn turn<S, W, E>(
    clients: Map<u32, SocketView<S, W>>,
    pass: PassView,
    event: Event<S, E>,
    after: Map<u32, SocketView<S, W>>,
    next: PassView,
    step: Step<W, E>,
) -> bool {
    &&& step.action == next.action()
    &&& match event {
        Event::Accepted(outcome) => {
            &&& match outcome {
                Poll::Ready(Ok(stream)) => exists|id: u32|
                    drawn(id) && after == #[trigger] joined(clients, stream, id),
                _ => after == clients,
            }
            &&& step.wake == outcome is Ready
            &&& step.waker is None
            &&& step.failed is None
            &&& !step.again
            &&& lists(next.todo, after.dom())
            &&& next.stage == if next.todo.len() == 0 {
                Stage::Finished
            } else {
                Stage::Sending
            }
        },
        Event::Sent(outcome) => {
            &&& after == clients
            &&& step.wake == outcome is Ready
            &&& step.waker is None
            &&& step.failed is None
            &&& !step.again
            &&& if pass.todo.len() > 1 {
                next == (PassView { stage: Stage::Sending, todo: pass.todo.drop_last() })
            } else {
                lists(next.todo, after.dom()) && next.stage == Stage::Reading
            }
        },
        Event::Read(outcome) => {
            let from = pass.todo.last();
            &&& match outcome {
                Poll::Ready(Ok(_)) => {
                    &&& (after, step.waker) == delivered(clients, from)
                    &&& step.wake
                    &&& step.failed is None
                    &&& step.again == (parse(clients[from].incoming) is Some)
                },
                Poll::Ready(Err(error)) => {
                    &&& after == clients.remove(from)
                    &&& step.waker is None
                    &&& !step.wake
                    &&& step.failed == Some((from, error))
                    &&& !step.again
                },
                Poll::Pending => {
                    &&& after == clients
                    &&& step.waker is None
                    &&& !step.wake
                    &&& step.failed is None
                    &&& !step.again
                },
            }
            &&& next == if step.again {
                pass
            } else {
                PassView {
                    stage: if pass.todo.len() > 1 {
                        Stage::Reading
                    } else {
                        Stage::Finished
                    },
                    todo: pass.todo.drop_last(),
                }
            }
        },
    }
}

impl Pass {
    pub fn new() -> (pass: Pass)
        ensures
            pass@ == PassView::started(),
    {
        let pass = Pass { stage: Stage::Accepting, keys: Vec::new() };
        assert(pass@.todo =~= seq![]);
        pass
    }

    /// What is to be polled next.
    pub fn action(&self) -> (action: Action)
        requires
            self@.consistent(),
        ensures
            action == self@.action(),
    {
        match self.stage {
            Stage::Accepting => Action::PollAccept,
            Stage::Sending => Action::PollSend(self.keys[self.keys.len() - 1]),
            Stage::Reading => Action::PollRead(self.keys[self.keys.len() - 1]),
            Stage::Finished => Action::Return,
        }
    }
}

impl<S, W> Server<S, W> {
    pub fn new() -> (server: Server<S, W>)
        ensures
            server@ == Map::<u32, SocketView<S, W>>::empty(),
    {
        let server = Server { connections: HashMap::new() };
        assert(server@ =~= Map::<u32, SocketView<S, W>>::empty());
        server
    }

    /// Connects a client under the given ID, which is the first thing to be
    /// written to it.
    pub fn join(&mut self, stream: S, id: u32)
        ensures
            final(self)@ == joined(old(self)@, stream, id),
    {
        let ghost before = self@;
        let mut socket = Socket::new(stream);
        socket.send(greeting(id));
        self.connections.insert(id, socket);
        assert(self@ =~= joined(before, stream, id));
    }

    /// Connects a client under a random ID.
    pub fn accept(&mut self, stream: S) -> (id: u32)
        ensures
            drawn(id),
            final(self)@ == joined(old(self)@, stream, id),
    {
        let id: u32 = draw();
        self.join(stream, id);
        id
    }

    /// Makes a message of what the client `from` sent, where it sent a whole one,
    /// and schedules it for its destination.
    pub fn deliver(&mut self, from: u32) -> (delivery: Delivery<W>)
        requires
            old(self)@.contains_key(from),
        ensures
            (final(self)@, delivery.woken) == delivered(old(self)@, from),
            delivery.taken == (parse(old(self)@[from].incoming) is Some),
    {
        let ghost before = self@;
        let parsed = match find_mut(&mut self.connections, from) {
            Some(socket) => parse_message(&mut socket.read_buffer),
            None => return Delivery { taken: false, woken: None },
        };
        match parsed {
            Ok((dest, payload)) => {
                let ghost taken = self@;
                proof {
                    let rest = parse(before[from].incoming).unwrap().2;
                    assert(taken =~= before.insert(
                        from,
                        SocketView { incoming: rest, ..before[from] },
                    ));
                }
                match find_mut(&mut self.connections, dest) {
                    Some(destination) => {
                        let woken = destination.send(payload);
                        assert(self@ =~= taken.insert(dest, taken[dest].sent(content(payload))));
                        Delivery { taken: true, woken }
                    },
                    None => Delivery { taken: true, woken: None },
                }
            },
            Err(_) => {
                assert(self@ =~= before);
                Delivery { taken: false, woken: None }
            },
        }
    }

    /// One step of polling everything once: the listener, then every client for
    /// writing, then every client for reading. Whatever was ready is acted on, and
    /// the task asks to be polled again. Of what was read, one message is delivered at a
    /// time.
    pub fn poll_next<E>(&mut self, pass: &mut Pass, event: Event<S, E>) -> (step: Step<W, E>)
        requires
            old(pass)@.valid(old(self)@.dom()),
            old(pass)@.awaits(event),
        ensures
            turn(old(self)@, old(pass)@, event, final(self)@, final(pass)@, step),
            final(pass)@.valid(final(self)@.dom()),
    {
        broadcast use crate::table::lemma_listed;

        let ghost before = self@;
        let mut wake: bool = false;
        let mut waker: Option<W> = None;
        let mut failed: Option<(u32, E)> = None;
        let mut again: bool = false;
        match event {
            Event::Accepted(outcome) => {
                wake = outcome.is_ready();
                if let Poll::Ready(Ok(stream)) = outcome {
                    self.accept(stream);
                }
                pass.keys = keys_of(&self.connections);
                pass.stage = if pass.keys.len() == 0 {
                    Stage::Finished
                } else {
                    Stage::Sending
                };
            },
            Event::Sent(outcome) => {
                wake = outcome.is_ready();
                pass.keys.pop();
                if pass.keys.len() == 0 {
                    pass.keys = keys_of(&self.connections);
                    pass.stage = Stage::Reading;
                }
            },
            Event::Read(outcome) => {
                let from: u32 = pass.keys[pass.keys.len() - 1];
                match outcome {
                    Poll::Ready(Ok(_)) => {
                        wake = true;
                        let delivery = self.deliver(from);
                        waker = delivery.woken;
                        again = delivery.taken;
                        assert(self@.dom() =~= before.dom());
                    },
                    Poll::Ready(Err(error)) => {
                        self.connections.remove(&from);
                        failed = Some((from, error));
                        assert(self@ =~= before.remove(from));
                    },
                    Poll::Pending => {},
                }
                if !again {
                    pass.keys.pop();
                    if pass.keys.len() == 0 {
                        pass.stage = Stage::Finished;
                    }
                }
            },
        }
        assert(self@.dom() =~= self.connections@.dom());
        let action = pass.action();
        Step { again, wake, waker, failed, action }
    }
}

/// What is offered to the stream is what waited longest, and what the stream took
/// is gone from what waits, in order: no byte is lost, repeated or overtaken,
/// however the writes are cut.
pub proof fn law_writes_in_order<S, W>(socket: SocketView<S, W>, n: int)
    requires
        socket.outgoing.len() > 0,
        0 <= n <= socket.outgoing[0].len(),
    ensures
        socket.outgoing[0].take(n) == socket.pending().take(n),
        (SocketView { outgoing: written(socket.outgoing, n), ..socket }).pending()
            == socket.pending().skip(n),
{
    law_written_skips(socket.outgoing, n);
}

/// What is sent follows what waits to be written, and whoever waited for it is
/// no longer remembered.
pub proof fn law_sent_last<S, W>(socket: SocketView<S, W>, bytes: Seq<u8>)
    ensures
        socket.sent(bytes).pending() == socket.pending() + bytes,
        socket.sent(bytes).waker is None,
        socket.sent(bytes).incoming == socket.incoming,
{
    law_push_appends(socket.outgoing, bytes);
}

/// A new client is owed its ID in network order and nothing else, and every
/// other client is as it was.
pub proof fn law_greeted_first<S, W>(clients: Map<u32, SocketView<S, W>>, stream: S, id: u32)
    ensures
        joined(clients, stream, id).contains_key(id),
        joined(clients, stream, id)[id].pending() == network_bytes(id),
        joined(clients, stream, id)[id].incoming == Seq::<u8>::empty(),
        forall|other: u32|
            other != id ==> {
                &&& joined(clients, stream, id).contains_key(other) == #[trigger] clients.contains_key(
                    other,
                )
                &&& joined(clients, stream, id)[other] == clients[other]
            },
{
    law_push_appends(Seq::<Seq<u8>>::empty(), network_bytes(id));
    assert(Seq::<u8>::empty() + network_bytes(id) =~= network_bytes(id));
}

/// A whole message reaches the client that it names: the body and its null byte,
/// without the ID, follow what that client was owed. It is gone from what the
/// sender sent, and nobody else notices.
pub proof fn law_message_forwarded<S, W>(
    clients: Map<u32, SocketView<S, W>>,
    from: u32,
    dest: u32,
    body: Seq<u8>,
    rest: Seq<u8>,
)
    requires
        clients.contains_key(from),
        clients.contains_key(dest),
        is_body(body),
        clients[from].incoming == encode(dest, body) + rest,
    ensures
        ({
            let (after, woken) = delivered(clients, from);
            &&& after.dom() == clients.dom()
            &&& after[dest].pending() == clients[dest].pending() + body.push(0)
            &&& after[from].incoming == rest
            &&& woken == clients[dest].waker
            &&& from != dest ==> {
                &&& after[dest].incoming == clients[dest].incoming
                &&& after[from].pending() == clients[from].pending()
            }
            &&& forall|other: u32|
                other != from && other != dest ==> #[trigger] after[other] == clients[other]
        }),
{
    law_encoded_is_parsed(dest, body, rest);
    law_push_appends(clients[dest].outgoing, body.push(0));
    assert(delivered(clients, from).0.dom() =~= clients.dom());
}

/// A message for a client that is not connected goes nowhere: only the sender's
/// bytes change.
pub proof fn law_unknown_destination_dropped<S, W>(
    clients: Map<u32, SocketView<S, W>>,
    from: u32,
    dest: u32,
    body: Seq<u8>,
    rest: Seq<u8>,
)
    requires
        clients.contains_key(from),
        !clients.contains_key(dest),
        is_body(body),
        clients[from].incoming == encode(dest, body) + rest,
    ensures
        delivered(clients, from) == (
            clients.insert(from, SocketView { incoming: rest, ..clients[from] }),
            None::<W>,
        ),
{
    law_encoded_is_parsed(dest, body, rest);
}

/// Someone waits for something to write to a client only while there is nothing to
/// write, whoever joins and whatever is delivered: nothing is scheduled for a
/// client without waking whoever waited for it.
pub proof fn law_waiting_means_nothing_to_write<S, W>(
    clients: Map<u32, SocketView<S, W>>,
    stream: S,
    id: u32,
    from: u32,
)
    requires
        forall|k: u32| #[trigger] clients.contains_key(k) ==> clients[k].sound(),
        clients.contains_key(from),
    ensures
        forall|k: u32| #[trigger]
            joined(clients, stream, id).contains_key(k) ==> joined(clients, stream, id)[k].sound(),
        forall|k: u32| #[trigger]
            delivered(clients, from).0.contains_key(k) ==> delivered(clients, from).0[k].sound(),
        forall|k: u32| #[trigger]
            clients.remove(from).contains_key(k) ==> clients.remove(from)[k].sound(),
{
    assert forall|k: u32| #[trigger] joined(clients, stream, id).contains_key(k) implies joined(
        clients,
        stream,
        id,
    )[k].sound() by {
        assert(k != id ==> clients.contains_key(k));
    }
    assert forall|k: u32| #[trigger] delivered(clients, from).0.contains_key(k) implies delivered(
        clients,
        from,
    ).0[k].sound() by {
        assert(clients.contains_key(k));
    }
    assert forall|k: u32| #[trigger] clients.remove(from).contains_key(k) implies clients.remove(
        from,
    )[k].sound() by {
        assert(clients.contains_key(k));
    }
}

/// The clients once `from` was read from `n` times.
pub open spec fn delivered_often<S, W>(
    clients: Map<u32, SocketView<S, W>>,
    from: u32,
    n: nat,
) -> Map<u32, SocketView<S, W>>
    decreases n,
{
    if n == 0 {
        clients
    } else {
        delivered_often(delivered(clients, from).0, from, (n - 1) as nat)
    }
}

/// What happens to the client `id` when `from` is read from once and then until all of
/// its messages are delivered.
proof fn lemma_delivered_first<S, W>(
    clients: Map<u32, SocketView<S, W>>,
    from: u32,
    dest: u32,
    payload: Seq<u8>,
    rest: Seq<u8>,
    id: u32,
)
    requires
        clients.contains_key(from),
        clients.contains_key(id),
        parse(clients[from].incoming) == Some((dest, payload, rest)),
    ensures
        ({
            let once = delivered(clients, from).0;
            &&& once.contains_key(id)
            &&& once[id].pending() == if id == dest {
                clients[id].pending() + payload
            } else {
                clients[id].pending()
            }
            &&& once[id].incoming == if id == from {
                rest
            } else {
                clients[id].incoming
            }
        }),
{
    law_push_appends(clients[id].outgoing, payload);
}

/// Whoever `id` is, it was handed what the messages that `from` sent carried for it, and
/// what is left of what `from` sent is no whole message.
pub open spec fn served<S, W>(
    before: Map<u32, SocketView<S, W>>,
    from: u32,
    after: Map<u32, SocketView<S, W>>,
    id: u32,
) -> bool {
    let stream = before[from].incoming;
    &&& after[id].pending() == before[id].pending() + addressed(messages(stream), id)
    &&& after[id].incoming == if id == from {
        leftover(stream)
    } else {
        before[id].incoming
    }
}

/// Reading from a client often enough forwards all messages that it sent, each to
/// the client that it names and in the order in which they were sent, and leaves
/// what is not a whole message yet.
pub proof fn law_all_messages_forwarded_in_order<S, W>(
    clients: Map<u32, SocketView<S, W>>,
    from: u32,
)
    requires
        clients.contains_key(from),
    ensures
        ({
            let after = delivered_often(clients, from, messages(clients[from].incoming).len());
            &&& after.dom() == clients.dom()
            &&& forall|id: u32| #[trigger]
                clients.contains_key(id) ==> served(clients, from, after, id)
        }),
    decreases clients[from].incoming.len(),
{
    let stream = clients[from].incoming;
    let mail = messages(stream);
    let after = delivered_often(clients, from, mail.len());
    law_one_at_a_time(stream);
    if let Some((dest, payload, rest)) = parse(stream) {
        law_parsed_is_encoded(stream);
        let once = delivered(clients, from).0;
        lemma_delivered_first(clients, from, dest, payload, rest, from);
        law_all_messages_forwarded_in_order(once, from);
        assert(mail.drop_first().len() == mail.len() - 1);
        assert(after == delivered_often(once, from, messages(rest).len()));
        assert(once.dom() =~= clients.dom());
        assert forall|id: u32| #[trigger] clients.contains_key(id) implies served(
            clients,
            from,
            after,
            id,
        ) by {
            lemma_delivered_first(clients, from, dest, payload, rest, id);
            lemma_addressed_first(mail, id, clients[id].pending());
            assert(served(once, from, after, id));
        }
    } else {
        assert forall|id: u32| #[trigger] clients.contains_key(id) implies served(
            clients,
            from,
            after,
            id,
        ) by {
            assert(clients[id].pending() + addressed(mail, id) =~= clients[id].pending());
        }
    }
}

/// No client sent a whole message that was not delivered yet.
pub open spec fn settled<S, W>(clients: Map<u32, SocketView<S, W>>) -> bool {
    forall|id: u32| #[trigger] clients.contains_key(id) ==> parse(clients[id].incoming) is None
}

/// Once the event of a read was handed in until there is nothing to deliver, nobody has
/// sent a whole message that was not delivered, if that held of the others: no message
/// waits for more bytes to come, and a client that then cannot be read from takes none
/// with it.
pub proof fn law_settled_again<S, W>(clients: Map<u32, SocketView<S, W>>, from: u32)
    requires
        clients.contains_key(from),
        forall|id: u32| #[trigger]
            clients.contains_key(id) && id != from ==> parse(clients[id].incoming) is None,
    ensures
        settled(delivered_often(clients, from, messages(clients[from].incoming).len())),
{
    let after = delivered_often(clients, from, messages(clients[from].incoming).len());
    law_all_messages_forwarded_in_order(clients, from);
    law_leftover_is_incomplete(clients[from].incoming);
    assert forall|id: u32| #[trigger] after.contains_key(id) implies parse(
        after[id].incoming,
    ) is None by {
        assert(clients.contains_key(id));
    }
}

} // verus!
