//! What a caller can count on of each function, in terms of what the sockets hold.

use super::{Action, Delivery, Event, Pass, ReadAction, ReadEvent, SendAction, SendEvent};
use super::{Server, Socket, Stage, Step};
use crate::buffers::{content, contents, unread};
use crate::identity::drawn;
use crate::message::{law_message_in_bytes, parse};
use crate::poll::Poll;
use crate::queue::{law_push_appends, law_written_skips};
use crate::wire::network_bytes;
use bytes::Bytes;
use vstd::prelude::*;

verus! {

/// All bytes that wait to be written to a client, in order.
pub open spec fn owed<S, W>(socket: Socket<S, W>) -> Seq<u8> {
    contents(socket.write_buffers@).flatten()
}

/// The two sockets hold the same.
pub open spec fn same<S, W>(a: Socket<S, W>, b: Socket<S, W>) -> bool {
    &&& contents(a.write_buffers@) == contents(b.write_buffers@)
    &&& unread(a.read_buffer) == unread(b.read_buffer)
    &&& a.stream == b.stream
    &&& a.waker == b.waker
}

/// The same clients are connected, but perhaps for `id`, and their sockets hold the same.
pub open spec fn same_but<S, W>(
    a: Map<u32, Socket<S, W>>,
    b: Map<u32, Socket<S, W>>,
    id: u32,
) -> bool {
    forall|other: u32|
        other != id ==> {
            &&& #[trigger] a.contains_key(other) == b.contains_key(other)
            &&& a.contains_key(other) ==> same(a[other], b[other])
        }
}

/// The same clients are connected, and their sockets hold the same.
pub open spec fn all_same<S, W>(
    a: Map<u32, Socket<S, W>>,
    b: Map<u32, Socket<S, W>>,
) -> bool {
    forall|id: u32|
        {
            &&& #[trigger] a.contains_key(id) == b.contains_key(id)
            &&& a.contains_key(id) ==> same(a[id], b[id])
        }
}

/// The client `id` is new: its stream is `stream`, it is owed its ID and nothing else, and
/// nothing was read from it.
pub open spec fn newly_connected<S, W>(
    connections: Map<u32, Socket<S, W>>,
    stream: S,
    id: u32,
) -> bool {
    &&& connections.contains_key(id)
    &&& connections[id].stream == stream
    &&& owed(connections[id]) == network_bytes(id)
    &&& unread(connections[id].read_buffer).len() == 0
    &&& connections[id].waker is None
}

/// What reading from `from` makes of the clients: the bytes up to the first null byte
/// after the first four leave what `from` sent, if there is one, and those after the first
/// four follow what the client is owed that the first four name, if it is connected.
/// Nobody comes or goes, streams stay where they are, and nobody else notices.
pub open spec fn forwards<S, W>(
    before: Map<u32, Socket<S, W>>,
    from: u32,
    after: Map<u32, Socket<S, W>>,
    woken: Option<W>,
) -> bool {
    let stream = unread(before[from].read_buffer);
    match parse(stream) {
        None => all_same(before, after) && woken is None,
        Some((dest, payload, rest)) => {
            &&& unread(after[from].read_buffer) == rest
            &&& before.contains_key(dest) ==> {
                &&& owed(after[dest]) == owed(before[dest]) + payload
                &&& after[dest].waker is None
                &&& woken == before[dest].waker
            }
            &&& !before.contains_key(dest) ==> woken is None
            &&& forall|id: u32|
                {
                    &&& #[trigger] before.contains_key(id) == after.contains_key(id)
                    &&& before.contains_key(id) ==> {
                        &&& after[id].stream == before[id].stream
                        &&& id != from ==> unread(after[id].read_buffer) == unread(
                            before[id].read_buffer,
                        )
                        &&& id != dest ==> {
                            &&& contents(after[id].write_buffers@) == contents(
                                before[id].write_buffers@,
                            )
                            &&& after[id].waker == before[id].waker
                        }
                    }
                }
        },
    }
}

/// A new socket has the stream that it was made with and holds nothing.
pub proof fn law_new_socket<S, W>(stream: S, socket: Socket<S, W>)
    requires
        call_ensures(Socket::<S, W>::new, (stream,), socket),
    ensures
        socket.stream == stream,
        owed(socket).len() == 0,
        unread(socket.read_buffer).len() == 0,
        socket.waker is None,
{
    assert(contents(socket.write_buffers@) == socket@.outgoing);
    assert(contents(socket.write_buffers@) =~= seq![]);
}

/// What is sent follows all that waits. Whoever waited for it is handed out to be woken,
/// once.
pub proof fn law_send_appends<S, W>(socket: &mut Socket<S, W>, buf: Bytes, woken: Option<W>)
    requires
        call_ensures(Socket::<S, W>::send, (socket, buf), woken),
    ensures
        owed(*final(socket)) == owed(*old(socket)) + content(buf),
        woken == old(socket).waker,
        final(socket).waker is None,
        final(socket).stream == old(socket).stream,
        unread(final(socket).read_buffer) == unread(old(socket).read_buffer),
{
    law_push_appends(contents(old(socket).write_buffers@), content(buf));
    assert(contents(final(socket).write_buffers@) == final(socket)@.outgoing);
    assert(contents(old(socket).write_buffers@) == old(socket)@.outgoing);
}

/// What is offered to the stream is the beginning of what waits, and there is something to
/// offer exactly when a buffer waits.
pub proof fn law_front_waited_longest<S, W>(socket: &Socket<S, W>, front: Option<&Bytes>)
    requires
        call_ensures(Socket::<S, W>::front, (socket,), front),
    ensures
        front is Some <==> socket.write_buffers@.len() > 0,
        front matches Some(buffer) ==> {
            &&& content(*buffer) == content(socket.write_buffers@[0])
            &&& content(*buffer).is_prefix_of(owed(*socket))
        },
{
    let queue = contents(socket.write_buffers@);
    assert(queue == socket@.outgoing);
    if let Some(buffer) = front {
        assert(queue.flatten() == queue[0] + queue.drop_first().flatten());
        assert(content(*buffer) =~= owed(*socket).take(content(*buffer).len() as int));
    }
}

/// Whatever waits to be written, and however long it is, a call of `poll_send` polls the
/// stream. It returns without that only where nothing waits, and then remembers whom to
/// wake.
pub proof fn law_poll_send_begins<S, W, E>(
    socket: &mut Socket<S, W>,
    waker: W,
    action: SendAction<E>,
)
    requires
        call_ensures(Socket::<S, W>::poll_send::<E>, (socket, SendEvent::Begin(waker)), action),
    ensures
        old(socket).write_buffers@.len() > 0 ==> {
            &&& action is PollWriteReady
            &&& same(*final(socket), *old(socket))
        },
        old(socket).write_buffers@.len() == 0 ==> {
            &&& action == SendAction::<E>::Return(Poll::Pending)
            &&& final(socket).waker == Some(waker)
            &&& owed(*final(socket)) == owed(*old(socket))
            &&& final(socket).stream == old(socket).stream
            &&& unread(final(socket).read_buffer) == unread(old(socket).read_buffer)
        },
{
    assert(contents(old(socket).write_buffers@) == old(socket)@.outgoing);
    assert(contents(final(socket).write_buffers@) == final(socket)@.outgoing);
}

/// A stream that is ready to be written to is written to. One that is not, or failed, ends
/// the call with just that, and nothing changed.
pub proof fn law_poll_send_when_ready<S, W, E>(
    socket: &mut Socket<S, W>,
    ready: Poll<Result<(), E>>,
    action: SendAction<E>,
)
    requires
        call_ensures(
            Socket::<S, W>::poll_send::<E>,
            (socket, SendEvent::WriteReady(ready)),
            action,
        ),
    ensures
        action is TryWrite <==> ready is Ready && ready->Ready_0 is Ok,
        !(action is TryWrite) ==> action == SendAction::<E>::Return(ready),
        same(*final(socket), *old(socket)),
{
    assert(contents(old(socket).write_buffers@) == old(socket)@.outgoing);
    assert(contents(final(socket).write_buffers@) == final(socket)@.outgoing);
}

/// What the stream took is gone from the front of what waits, no more and no less, and the
/// call ends. What it refused is still there, and the call ends with the error unless the
/// stream is only to be polled again.
pub proof fn law_poll_send_wrote<S, W, E>(
    socket: &mut Socket<S, W>,
    wrote: Result<usize, crate::poll::Refusal<E>>,
    action: SendAction<E>,
)
    requires
        call_ensures(Socket::<S, W>::poll_send::<E>, (socket, SendEvent::Wrote(wrote)), action),
        wrote matches Ok(n) ==> {
            &&& old(socket).write_buffers@.len() > 0
            &&& n <= content(old(socket).write_buffers@[0]).len()
        },
    ensures
        match wrote {
            Ok(n) => {
                &&& action == SendAction::<E>::Return(Poll::Ready(Ok(())))
                &&& owed(*old(socket)) == owed(*old(socket)).take(n as int) + owed(*final(socket))
                &&& owed(*final(socket)).len() + n == owed(*old(socket)).len()
            },
            Err(refusal) => {
                &&& refusal.would_block ==> action is PollWriteReady
                &&& !refusal.would_block ==> action == SendAction::<E>::Return(
                    Poll::Ready(Err(refusal.error)),
                )
                &&& owed(*final(socket)) == owed(*old(socket))
            },
        },
        final(socket).stream == old(socket).stream,
        final(socket).waker == old(socket).waker,
        unread(final(socket).read_buffer) == unread(old(socket).read_buffer),
{
    let queue = contents(old(socket).write_buffers@);
    assert(queue == old(socket)@.outgoing);
    assert(contents(final(socket).write_buffers@) == final(socket)@.outgoing);
    if let Ok(n) = wrote {
        assert(queue[0] == content(old(socket).write_buffers@[0]));
        law_written_skips(queue, n as int);
        assert(queue.flatten() == queue[0] + queue.drop_first().flatten());
        let all = owed(*old(socket));
        assert(all =~= all.take(n as int) + all.skip(n as int));
    }
}

/// A stream that is ready to be read from is read from, once, and the call ends with what
/// was read. Where it was not ready after all, it is polled again; any other error, and that
/// it is not ready, end the call with just that.
pub proof fn law_poll_read_reads_once<S, W, E>(
    socket: &Socket<S, W>,
    event: ReadEvent<E>,
    action: ReadAction<E>,
)
    requires
        call_ensures(Socket::<S, W>::poll_read::<E>, (socket, event), action),
    ensures
        match event {
            ReadEvent::Begin => action is PollReadReady,
            ReadEvent::ReadReady(ready) => {
                &&& action is TryRead <==> ready is Ready && ready->Ready_0 is Ok
                &&& !(action is TryRead) ==> action == ReadAction::<E>::Return(ready)
            },
            ReadEvent::Read(Ok(_)) => action == ReadAction::<E>::Return(Poll::Ready(Ok(()))),
            ReadEvent::Read(Err(refusal)) => {
                &&& refusal.would_block ==> action is PollReadReady
                &&& !refusal.would_block ==> action == ReadAction::<E>::Return(
                    Poll::Ready(Err(refusal.error)),
                )
            },
        },
{
}

proof fn lemma_views<S, W>(a: Server<S, W>, b: Server<S, W>, id: u32)
    requires
        a@.contains_key(id) == b@.contains_key(id),
        a@.contains_key(id) ==> a@[id] == b@[id],
    ensures
        a.connections@.contains_key(id) == b.connections@.contains_key(id),
        a.connections@.contains_key(id) ==> same(a.connections@[id], b.connections@[id]),
{
    if a.connections@.contains_key(id) {
        assert(a@[id] == a.connections@[id]@);
        assert(b@[id] == b.connections@[id]@);
    }
}

proof fn lemma_all_same<S, W>(a: Server<S, W>, b: Server<S, W>)
    requires
        a@ == b@,
    ensures
        all_same(a.connections@, b.connections@),
{
    assert forall|id: u32|
        {
            &&& #[trigger] a.connections@.contains_key(id) == b.connections@.contains_key(id)
            &&& a.connections@.contains_key(id) ==> same(a.connections@[id], b.connections@[id])
        } by {
        lemma_views(a, b, id);
    }
}

proof fn lemma_joined<S, W>(before: Server<S, W>, stream: S, id: u32, after: Server<S, W>)
    requires
        after@ == super::joined(before@, stream, id),
    ensures
        newly_connected(after.connections@, stream, id),
        same_but(before.connections@, after.connections@, id),
{
    super::law_greeted_first(before@, stream, id);
    assert(after@.contains_key(id));
    assert(after@[id] == after.connections@[id]@);
    assert forall|other: u32| other != id implies {
        &&& #[trigger] before.connections@.contains_key(other) == after.connections@.contains_key(
            other,
        )
        &&& before.connections@.contains_key(other) ==> same(
            before.connections@[other],
            after.connections@[other],
        )
    } by {
        assert(before@.contains_key(other) == after@.contains_key(other));
        lemma_views(before, after, other);
    }
}

proof fn lemma_forwards<S, W>(
    before: Server<S, W>,
    from: u32,
    after: Server<S, W>,
    woken: Option<W>,
)
    requires
        before@.contains_key(from),
        (after@, woken) == super::delivered(before@, from),
    ensures
        forwards(before.connections@, from, after.connections@, woken),
{
    let old_clients = before.connections@;
    let new_clients = after.connections@;
    assert(before@[from] == old_clients[from]@);
    match parse(unread(old_clients[from].read_buffer)) {
        None => {
            lemma_all_same(before, after);
        },
        Some((dest, payload, rest)) => {
            assert(after@.dom() =~= before@.dom());
            assert(after@[from] == new_clients[from]@);
            if before@.contains_key(dest) {
                assert(after@[dest] == new_clients[dest]@);
                assert(before@[dest] == old_clients[dest]@);
                law_push_appends(contents(old_clients[dest].write_buffers@), payload);
            }
            assert forall|id: u32|
                {
                    &&& #[trigger] old_clients.contains_key(id) == new_clients.contains_key(id)
                    &&& old_clients.contains_key(id) ==> {
                        &&& new_clients[id].stream == old_clients[id].stream
                        &&& id != from ==> unread(new_clients[id].read_buffer) == unread(
                            old_clients[id].read_buffer,
                        )
                        &&& id != dest ==> {
                            &&& contents(new_clients[id].write_buffers@) == contents(
                                old_clients[id].write_buffers@,
                            )
                            &&& new_clients[id].waker == old_clients[id].waker
                        }
                    }
                } by {
                assert(before@.contains_key(id) == after@.contains_key(id));
                assert(before@.contains_key(id) == old_clients.contains_key(id));
                assert(after@.contains_key(id) == new_clients.contains_key(id));
                if old_clients.contains_key(id) {
                    assert(after@[id] == new_clients[id]@);
                    assert(before@[id] == old_clients[id]@);
                }
            }
        },
    }
}

/// Nobody is connected to a new server.
pub proof fn law_new_server<S, W>(server: Server<S, W>)
    requires
        call_ensures(Server::<S, W>::new, (), server),
    ensures
        forall|id: u32| !(#[trigger] server.connections@.contains_key(id)),
{
    assert forall|id: u32| !(#[trigger] server.connections@.contains_key(id)) by {
        assert(!server@.contains_key(id));
    }
}

/// A client that joins is connected, whoever else is, and is owed its ID; everyone else is
/// as before.
pub proof fn law_join_connects<S, W>(server: &mut Server<S, W>, stream: S, id: u32)
    requires
        call_ensures(Server::<S, W>::join, (server, stream, id), ()),
    ensures
        newly_connected(final(server).connections@, stream, id),
        same_but(old(server).connections@, final(server).connections@, id),
{
    lemma_joined(*old(server), stream, id, *final(server));
}

/// A client that is accepted is connected under an ID that was drawn for it, whoever else
/// is, and is owed that ID; everyone else is as before.
pub proof fn law_accept_connects<S, W>(server: &mut Server<S, W>, stream: S, id: u32)
    requires
        call_ensures(Server::<S, W>::accept, (server, stream), id),
    ensures
        drawn(id),
        newly_connected(final(server).connections@, stream, id),
        same_but(old(server).connections@, final(server).connections@, id),
{
    lemma_joined(*old(server), stream, id, *final(server));
}

/// What a client sent reaches whom it names.
pub proof fn law_deliver_forwards<S, W>(
    server: &mut Server<S, W>,
    from: u32,
    delivery: Delivery<W>,
)
    requires
        call_ensures(Server::<S, W>::deliver, (server, from), delivery),
        old(server).connections@.contains_key(from),
    ensures
        forwards(
            old(server).connections@,
            from,
            final(server).connections@,
            delivery.woken,
        ),
        delivery.taken <==> exists|i: int|
            4 <= i < unread(old(server).connections@[from].read_buffer).len() && unread(
                old(server).connections@[from].read_buffer,
            )[i] == 0,
{
    assert(old(server)@.contains_key(from));
    assert(old(server)@[from] == old(server).connections@[from]@);
    law_message_in_bytes(unread(old(server).connections@[from].read_buffer));
    lemma_forwards(*old(server), from, *final(server), delivery.woken);
}

/// Whoever the listener hands over is connected, however many are connected already: under
/// an ID that was drawn for it, with the stream that was accepted, and owed its ID. Everyone
/// else is as before, so that there is one client more where the ID was free.
pub proof fn law_accepted_is_connected<S, W, E>(
    server: &mut Server<S, W>,
    pass: &mut Pass,
    stream: S,
    step: Step<W, E>,
)
    requires
        call_ensures(
            Server::<S, W>::poll_next::<E>,
            (server, pass, Event::Accepted(Poll::Ready(Ok(stream)))),
            step,
        ),
        old(pass)@.awaits(Event::<S, E>::Accepted(Poll::Ready(Ok(stream)))),
        old(pass)@.valid(old(server)@.dom()),
    ensures
        exists|id: u32|
            {
                &&& drawn(id)
                &&& #[trigger] newly_connected(final(server).connections@, stream, id)
                &&& same_but(old(server).connections@, final(server).connections@, id)
                &&& !old(server).connections@.contains_key(id) ==> final(server).connections@.dom().len() == old(server).connections@.dom().len() + 1
            },
        step.wake,
{
    let before = *old(server);
    let after = *final(server);
    let id = choose|id: u32|
        drawn(id) && after@ == #[trigger] super::joined(before@, stream, id);
    lemma_joined(before, stream, id, after);
    if !before.connections@.contains_key(id) {
        assert(after.connections@.dom() =~= before.connections@.dom().insert(id)) by {
            assert forall|other: u32| #[trigger]
                after.connections@.contains_key(other) == before.connections@.dom().insert(
                    id,
                ).contains(other) by {
                if other != id {
                    assert(before.connections@.contains_key(other)
                        == after.connections@.contains_key(other));
                }
            }
        }
    }
}

/// A poll that found nothing, and every poll for writing, leaves all clients as they are: in
/// particular what they sent and is not a whole message yet. So does a listener that failed.
pub proof fn law_nothing_found_nothing_changed<S, W, E>(
    server: &mut Server<S, W>,
    pass: &mut Pass,
    event: Event<S, E>,
    step: Step<W, E>,
)
    requires
        call_ensures(Server::<S, W>::poll_next::<E>, (server, pass, event), step),
        old(pass)@.awaits(event),
        old(pass)@.valid(old(server)@.dom()),
        match event {
            Event::Accepted(outcome) => !(outcome is Ready && outcome->Ready_0 is Ok),
            Event::Sent(_) => true,
            Event::Read(outcome) => outcome is Pending,
        },
    ensures
        all_same(old(server).connections@, final(server).connections@),
        step.waker is None,
        step.failed is None,
        !step.again,
{
    lemma_all_same(*old(server), *final(server));
}

/// What was read reaches whom it names, and the task asks for the event again exactly when
/// it took a message.
pub proof fn law_read_is_forwarded<S, W, E>(
    server: &mut Server<S, W>,
    pass: &mut Pass,
    from: u32,
    step: Step<W, E>,
)
    requires
        call_ensures(
            Server::<S, W>::poll_next::<E>,
            (server, pass, Event::Read(Poll::Ready(Ok(())))),
            step,
        ),
        call_ensures(Pass::action, (&*old(pass),), Action::PollRead(from)),
        old(pass)@.valid(old(server)@.dom()),
    ensures
        forwards(old(server).connections@, from, final(server).connections@, step.waker),
        step.again <==> exists|i: int|
            4 <= i < unread(old(server).connections@[from].read_buffer).len() && unread(
                old(server).connections@[from].read_buffer,
            )[i] == 0,
        step.again ==> unread(final(server).connections@[from].read_buffer).len() < unread(
            old(server).connections@[from].read_buffer,
        ).len(),
        step.again ==> step.action == Action::PollRead(from),
        step.failed is None,
{
    assert(old(pass)@.stage == Stage::Reading);
    assert(old(pass)@.todo.last() == from);
    assert(old(server)@.contains_key(from));
    assert(old(server)@[from] == old(server).connections@[from]@);
    law_message_in_bytes(unread(old(server).connections@[from].read_buffer));
    lemma_forwards(*old(server), from, *final(server), step.waker);
    if parse(unread(old(server).connections@[from].read_buffer)) is Some {
        assert(final(server)@[from] == final(server).connections@[from]@);
        crate::message::law_parsed_is_encoded(unread(old(server).connections@[from].read_buffer));
    }
}

/// A client that cannot be read from is gone and reported with its error, and everyone else
/// is as before.
pub proof fn law_unreadable_is_gone<S, W, E>(
    server: &mut Server<S, W>,
    pass: &mut Pass,
    from: u32,
    error: E,
    step: Step<W, E>,
)
    requires
        call_ensures(
            Server::<S, W>::poll_next::<E>,
            (server, pass, Event::Read(Poll::Ready(Err(error)))),
            step,
        ),
        call_ensures(Pass::action, (&*old(pass),), Action::PollRead(from)),
        old(pass)@.valid(old(server)@.dom()),
    ensures
        !final(server).connections@.contains_key(from),
        same_but(old(server).connections@, final(server).connections@, from),
        step.failed == Some((from, error)),
        step.waker is None,
        !step.again,
{
    assert(old(pass)@.stage == Stage::Reading);
    assert(old(pass)@.todo.last() == from);
    let before = *old(server);
    let after = *final(server);
    assert(!after@.contains_key(from));
    assert forall|other: u32| other != from implies {
        &&& #[trigger] before.connections@.contains_key(other) == after.connections@.contains_key(
            other,
        )
        &&& before.connections@.contains_key(other) ==> same(
            before.connections@[other],
            after.connections@[other],
        )
    } by {
        assert(before@.contains_key(other) == after@.contains_key(other));
        lemma_views(before, after, other);
    }
}

/// The task asks to be polled again exactly when something was ready that it goes on with:
/// the listener, or a client that is still there.
pub proof fn law_wakes_when_ready<S, W, E>(
    server: &mut Server<S, W>,
    pass: &mut Pass,
    event: Event<S, E>,
    step: Step<W, E>,
)
    requires
        call_ensures(Server::<S, W>::poll_next::<E>, (server, pass, event), step),
        old(pass)@.awaits(event),
        old(pass)@.valid(old(server)@.dom()),
    ensures
        step.wake == match event {
            Event::Accepted(outcome) => outcome is Ready,
            Event::Sent(outcome) => outcome is Ready,
            Event::Read(outcome) => outcome is Ready && outcome->Ready_0 is Ok,
        },
{
}

/// How many polls a pass has still to make, where `clients` are connected.
pub open spec fn polls_left(pass: Pass, clients: nat) -> nat {
    match pass@.stage {
        Stage::Accepting => 1 + 2 * clients,
        Stage::Sending => pass@.todo.len() + clients,
        Stage::Reading => pass@.todo.len(),
        Stage::Finished => 0,
    }
}

/// A new pass begins with the listener.
pub proof fn law_pass_begins(pass: Pass, action: Action)
    requires
        call_ensures(Pass::new, (), pass),
        call_ensures(Pass::action, (&pass,), action),
    ensures
        action == Action::PollAccept,
        pass@.consistent(),
{
}

/// Each poll that is not to be handed in again brings the pass one poll nearer to its end:
/// once the listener was polled, two are left for each client, and the pass returns when
/// none is left and not before. What is polled is a client that is connected.
pub proof fn law_pass_comes_to_its_end<S, W, E>(
    server: &mut Server<S, W>,
    pass: &mut Pass,
    event: Event<S, E>,
    step: Step<W, E>,
)
    requires
        call_ensures(Server::<S, W>::poll_next::<E>, (server, pass, event), step),
        old(pass)@.awaits(event),
        old(pass)@.valid(old(server)@.dom()),
    ensures
        event is Accepted ==> polls_left(*final(pass), final(server)@.dom().len()) == 2 * final(server)@.dom().len(),
        event is Sent && old(pass)@.todo.len() >= 1 ==> polls_left(
            *final(pass),
            final(server)@.dom().len(),
        ) + 1 == polls_left(*old(pass), old(server)@.dom().len()),
        event is Read && !step.again ==> polls_left(*final(pass), final(server)@.dom().len()) + 1
            == polls_left(*old(pass), old(server)@.dom().len()),
        step.action is Return <==> polls_left(*final(pass), final(server)@.dom().len()) == 0,
        match step.action {
            Action::PollAccept => false,
            Action::PollSend(id) => final(server).connections@.contains_key(id),
            Action::PollRead(id) => final(server).connections@.contains_key(id),
            Action::Return => true,
        },
{
    broadcast use crate::table::lemma_listed;

    assert(final(pass)@.valid(final(server)@.dom()));
    if final(pass)@.todo.len() > 0 {
        let id = final(pass)@.todo.last();
        assert(final(server)@.dom().contains(id));
        assert(final(server)@.contains_key(id));
    }
}

} // verus!
