//! What a caller can count on of each function, in terms of what the sockets hold.

use super::{Delivery, Event, Pass, ReadAction, ReadEvent, Router, SendAction, SendEvent};
use super::{Socket, Step};
use crate::buffers::unread;
use crate::message::{law_message_in_bytes, law_parsed_is_encoded, parse};
use crate::poll::Poll;
use crate::wire::network_bytes;
use vstd::prelude::*;

verus! {

/// The two sockets hold the same.
pub open spec fn same<S, W>(a: Socket<S, W>, b: Socket<S, W>) -> bool {
    &&& unread(a.write_buffer) == unread(b.write_buffer)
    &&& unread(a.read_buffer) == unread(b.read_buffer)
    &&& a.stream == b.stream
    &&& a.waker == b.waker
}

/// The same clients are connected, and their sockets hold the same.
pub open spec fn all_same<S, W>(a: Seq<Socket<S, W>>, b: Seq<Socket<S, W>>) -> bool {
    &&& a.len() == b.len()
    &&& forall|i: int| 0 <= i < a.len() ==> same(#[trigger] a[i], b[i])
}

/// There is one client more than `before`, at the last place: its stream is `stream`, it is
/// owed its place in network order and nothing else, and nothing was read from it. Everyone
/// else is as before.
pub open spec fn newly_connected<S, W>(
    before: Seq<Socket<S, W>>,
    stream: S,
    after: Seq<Socket<S, W>>,
) -> bool {
    let place = before.len() as int;
    &&& after.len() == place + 1
    &&& after[place].stream == stream
    &&& unread(after[place].write_buffer) == network_bytes(place as u32)
    &&& unread(after[place].read_buffer).len() == 0
    &&& after[place].waker is None
    &&& all_same(before, after.take(place))
}

/// What reading from `from` makes of the clients: the bytes up to the first null byte after
/// the first four leave what `from` sent, if there is one, and those after the first four
/// follow what the client is owed whose place the first four name. Nobody comes or goes,
/// streams stay where they are, and nobody else notices.
pub open spec fn forwards<S, W>(
    before: Seq<Socket<S, W>>,
    from: int,
    after: Seq<Socket<S, W>>,
    woken: Option<W>,
) -> bool {
    match parse(unread(before[from].read_buffer)) {
        None => all_same(before, after) && woken is None,
        Some((dest, payload, rest)) => {
            &&& after.len() == before.len()
            &&& unread(after[from].read_buffer) == rest
            &&& unread(after[dest as int].write_buffer) == unread(before[dest as int].write_buffer)
                + payload
            &&& after[dest as int].waker is None
            &&& woken == before[dest as int].waker
            &&& forall|i: int|
                0 <= i < before.len() ==> {
                    &&& (#[trigger] after[i]).stream == before[i].stream
                    &&& i != from ==> unread(after[i].read_buffer) == unread(before[i].read_buffer)
                    &&& i != dest ==> {
                        &&& unread(after[i].write_buffer) == unread(before[i].write_buffer)
                        &&& after[i].waker == before[i].waker
                    }
                }
        },
    }
}

/// What `from` sent, if it is a whole message, is for a client that is connected and has room
/// for it.
pub open spec fn deliverable<S, W>(clients: Seq<Socket<S, W>>, from: int) -> bool {
    parse(unread(clients[from].read_buffer)) matches Some((dest, payload, _)) ==> {
        &&& dest < clients.len()
        &&& unread(clients[dest as int].write_buffer).len() + payload.len() <= isize::MAX
    }
}

/// A new socket has the stream that it was made with and holds nothing.
pub proof fn law_new_socket<S, W>(stream: S, socket: Socket<S, W>)
    requires
        call_ensures(Socket::<S, W>::new, (stream,), socket),
    ensures
        socket.stream == stream,
        unread(socket.write_buffer).len() == 0,
        unread(socket.read_buffer).len() == 0,
        socket.waker is None,
{
    assert(socket@.pending.len() == 0);
    assert(socket@.incoming.len() == 0);
}

/// What is sent follows all that waits. Whoever waited for it is handed out to be woken,
/// once.
pub proof fn law_send_appends<S, W>(socket: &mut Socket<S, W>, buf: &[u8], woken: Option<W>)
    requires
        call_ensures(Socket::<S, W>::send, (socket, buf), woken),
        unread(old(socket).write_buffer).len() + buf@.len() <= isize::MAX,
    ensures
        unread(final(socket).write_buffer) == unread(old(socket).write_buffer) + buf@,
        woken == old(socket).waker,
        final(socket).waker is None,
        final(socket).stream == old(socket).stream,
        unread(final(socket).read_buffer) == unread(old(socket).read_buffer),
{
    assert(final(socket)@.pending == old(socket)@.pending + buf@);
    assert(final(socket)@.incoming == old(socket)@.incoming);
}

/// Whatever waits to be written, and however long it is, a call of `poll_send` polls the
/// stream. It returns without that only where nothing waits, and then remembers whom to
/// wake.
pub proof fn law_poll_send_begins<S, W, E>(
    socket: &mut Socket<S, W>,
    waker: W,
    action: SendAction,
)
    requires
        call_ensures(Socket::<S, W>::poll_send::<E>, (socket, SendEvent::Begin(waker)), action),
    ensures
        unread(old(socket).write_buffer).len() > 0 ==> {
            &&& action is PollWriteReady
            &&& same(*final(socket), *old(socket))
        },
        unread(old(socket).write_buffer).len() == 0 ==> {
            &&& action == SendAction::Return(Poll::Pending)
            &&& final(socket).waker == Some(waker)
            &&& unread(final(socket).write_buffer).len() == 0
            &&& final(socket).stream == old(socket).stream
            &&& unread(final(socket).read_buffer) == unread(old(socket).read_buffer)
        },
{
    assert(final(socket)@.pending == old(socket)@.pending);
    assert(final(socket)@.incoming == old(socket)@.incoming);
}

/// A stream that is ready to be written to is written to, and one that is not ends the call.
/// Nothing changed.
pub proof fn law_poll_send_when_ready<S, W, E>(
    socket: &mut Socket<S, W>,
    ready: Poll<()>,
    action: SendAction,
)
    requires
        call_ensures(
            Socket::<S, W>::poll_send::<E>,
            (socket, SendEvent::WriteReady(ready)),
            action,
        ),
    ensures
        ready is Ready ==> action is TryWrite,
        ready is Pending ==> action == SendAction::Return(Poll::Pending),
        same(*final(socket), *old(socket)),
{
    assert(final(socket)@ == old(socket)@);
}

/// What the stream took is gone from the front of what waits, no more and no less, and the
/// call ends. What it refused is still there, and the stream is polled again.
pub proof fn law_poll_send_wrote<S, W, E>(
    socket: &mut Socket<S, W>,
    wrote: Result<usize, E>,
    action: SendAction,
)
    requires
        call_ensures(Socket::<S, W>::poll_send::<E>, (socket, SendEvent::Wrote(wrote)), action),
        wrote matches Ok(n) ==> n <= unread(old(socket).write_buffer).len(),
    ensures
        match wrote {
            Ok(n) => {
                let waited = unread(old(socket).write_buffer);
                &&& action == SendAction::Return(Poll::Ready(()))
                &&& waited == waited.take(n as int) + unread(final(socket).write_buffer)
                &&& unread(final(socket).write_buffer).len() + n == waited.len()
            },
            Err(_) => {
                &&& action is PollWriteReady
                &&& unread(final(socket).write_buffer) == unread(old(socket).write_buffer)
            },
        },
        final(socket).stream == old(socket).stream,
        final(socket).waker == old(socket).waker,
        unread(final(socket).read_buffer) == unread(old(socket).read_buffer),
{
    assert(final(socket)@.incoming == old(socket)@.incoming);
    assert(final(socket)@.stream == old(socket)@.stream);
    assert(final(socket)@.waker == old(socket)@.waker);
    if let Ok(n) = wrote {
        let waited = unread(old(socket).write_buffer);
        assert(final(socket)@.pending == old(socket)@.pending.skip(n as int));
        assert(waited =~= waited.take(n as int) + waited.skip(n as int));
    } else {
        assert(final(socket)@.pending == old(socket)@.pending);
    }
}

/// A stream that is ready to be read from is read from, once, and the call ends with what was
/// read. One that is not ready ends the call, and one that gave nothing is polled again.
pub proof fn law_poll_read_reads_once<S, W, E>(
    socket: &Socket<S, W>,
    event: ReadEvent<E>,
    action: ReadAction,
)
    requires
        call_ensures(Socket::<S, W>::poll_read::<E>, (socket, event), action),
    ensures
        match event {
            ReadEvent::Begin => action is PollReadReady,
            ReadEvent::ReadReady(ready) => {
                &&& ready is Ready ==> action is TryRead
                &&& ready is Pending ==> action == ReadAction::Return(Poll::Pending)
            },
            ReadEvent::Read(Ok(_)) => action == ReadAction::Return(Poll::Ready(())),
            ReadEvent::Read(Err(_)) => action is PollReadReady,
        },
{
}

proof fn lemma_all_same<S, W>(a: Router<S, W>, b: Router<S, W>)
    requires
        a@ == b@,
    ensures
        all_same(a.connections@, b.connections@),
{
    assert(a@.len() == a.connections@.len());
    assert(b@.len() == b.connections@.len());
    assert forall|i: int| 0 <= i < a.connections@.len() implies same(
        #[trigger] a.connections@[i],
        b.connections@[i],
    ) by {
        assert(a@[i] == a.connections@[i]@);
        assert(b@[i] == b.connections@[i]@);
    }
}

proof fn lemma_joined<S, W>(before: Router<S, W>, stream: S, after: Router<S, W>)
    requires
        after@ == super::joined(before@, stream),
    ensures
        newly_connected(before.connections@, stream, after.connections@),
{
    super::law_greeted_first(before@, stream);
    let place = before.connections@.len() as int;
    assert(after@.len() == after.connections@.len());
    assert(before@.len() == before.connections@.len());
    assert(after@[place] == after.connections@[place]@);
    assert(after@.last() == after@[place]);
    assert forall|i: int| 0 <= i < before.connections@.len() implies same(
        #[trigger] before.connections@[i],
        after.connections@.take(place)[i],
    ) by {
        assert(after@.drop_last()[i] == before@[i]);
        assert(after@[i] == after.connections@[i]@);
        assert(before@[i] == before.connections@[i]@);
    }
}

proof fn lemma_forwards<S, W>(
    before: Router<S, W>,
    from: int,
    after: Router<S, W>,
    woken: Option<W>,
)
    requires
        0 <= from < before.connections@.len(),
        deliverable(before.connections@, from),
        (after@, woken) == super::delivered(before@, from),
    ensures
        forwards(before.connections@, from, after.connections@, woken),
{
    assert(before@.len() == before.connections@.len());
    assert(after@.len() == after.connections@.len());
    assert(before@[from] == before.connections@[from]@);
    match parse(unread(before.connections@[from].read_buffer)) {
        None => {
            lemma_all_same(before, after);
        },
        Some((dest, payload, rest)) => {
            assert(after@[from] == after.connections@[from]@);
            assert(after@[dest as int] == after.connections@[dest as int]@);
            assert(before@[dest as int] == before.connections@[dest as int]@);
            assert forall|i: int| 0 <= i < before.connections@.len() implies {
                &&& (#[trigger] after.connections@[i]).stream == before.connections@[i].stream
                &&& i != from ==> unread(after.connections@[i].read_buffer) == unread(
                    before.connections@[i].read_buffer,
                )
                &&& i != dest ==> {
                    &&& unread(after.connections@[i].write_buffer) == unread(
                        before.connections@[i].write_buffer,
                    )
                    &&& after.connections@[i].waker == before.connections@[i].waker
                }
            } by {
                assert(after@[i] == after.connections@[i]@);
                assert(before@[i] == before.connections@[i]@);
            }
        },
    }
}

/// Nobody is connected to a new router.
pub proof fn law_new_router<S, W>(router: Router<S, W>)
    requires
        call_ensures(Router::<S, W>::new, (), router),
    ensures
        router.connections@.len() == 0,
{
    assert(router@.len() == router.connections@.len());
}

/// A client that joins is connected, however many are, and is owed its place.
pub proof fn law_join_connects<S, W>(router: &mut Router<S, W>, stream: S)
    requires
        call_ensures(Router::<S, W>::join, (router, stream), ()),
    ensures
        newly_connected(old(router).connections@, stream, final(router).connections@),
{
    lemma_joined(*old(router), stream, *final(router));
}

/// What a client sent reaches whom it names.
pub proof fn law_deliver_forwards<S, W>(
    router: &mut Router<S, W>,
    from: usize,
    delivery: Delivery<W>,
)
    requires
        call_ensures(Router::<S, W>::deliver, (router, from), delivery),
        from < old(router).connections@.len(),
        deliverable(old(router).connections@, from as int),
    ensures
        forwards(
            old(router).connections@,
            from as int,
            final(router).connections@,
            delivery.woken,
        ),
        delivery.taken <==> exists|i: int|
            4 <= i < unread(old(router).connections@[from as int].read_buffer).len() && unread(
                old(router).connections@[from as int].read_buffer,
            )[i] == 0,
{
    assert(old(router)@[from as int] == old(router).connections@[from as int]@);
    law_message_in_bytes(unread(old(router).connections@[from as int].read_buffer));
    lemma_forwards(*old(router), from as int, *final(router), delivery.woken);
}

/// Whoever the listener hands over is connected, however many are connected already, with
/// the stream that was accepted, and owed its place. The listener is then polled again.
pub proof fn law_accepted_is_connected<S, W, E>(
    router: &mut Router<S, W>,
    stream: S,
    step: Step<W>,
)
    requires
        call_ensures(
            Router::<S, W>::poll_next::<E>,
            (router, Pass::PollAccept, Event::Accepted(Poll::Ready(Ok(stream)))),
            step,
        ),
    ensures
        newly_connected(old(router).connections@, stream, final(router).connections@),
        step.next == Pass::PollAccept,
        step.waker is None,
        !step.again,
{
    lemma_joined(*old(router), stream, *final(router));
}

/// A poll that found nothing, and every poll for writing, leaves all clients as they are: in
/// particular what they sent and is not a whole message yet. So does a listener that failed.
pub proof fn law_nothing_found_nothing_changed<S, W, E>(
    router: &mut Router<S, W>,
    pass: Pass,
    event: Event<S, E>,
    step: Step<W>,
)
    requires
        call_ensures(Router::<S, W>::poll_next::<E>, (router, pass, event), step),
        match event {
            Event::Accepted(outcome) => !(outcome is Ready && outcome->Ready_0 is Ok),
            Event::Sent(_) => true,
            Event::Read(outcome) => outcome is Pending,
        },
    ensures
        all_same(old(router).connections@, final(router).connections@),
        step.waker is None,
        !step.again,
{
    lemma_all_same(*old(router), *final(router));
}

/// What was read reaches whom it names, and the event is asked for again exactly when a
/// message was taken.
pub proof fn law_read_is_forwarded<S, W, E>(
    router: &mut Router<S, W>,
    from: usize,
    step: Step<W>,
)
    requires
        call_ensures(
            Router::<S, W>::poll_next::<E>,
            (router, Pass::PollRead(from), Event::Read(Poll::Ready(()))),
            step,
        ),
        from < old(router).connections@.len(),
        deliverable(old(router).connections@, from as int),
    ensures
        forwards(
            old(router).connections@,
            from as int,
            final(router).connections@,
            step.waker,
        ),
        step.again <==> exists|i: int|
            4 <= i < unread(old(router).connections@[from as int].read_buffer).len() && unread(
                old(router).connections@[from as int].read_buffer,
            )[i] == 0,
        step.again ==> unread(final(router).connections@[from as int].read_buffer).len() < unread(
            old(router).connections@[from as int].read_buffer,
        ).len(),
        step.again ==> step.next == Pass::PollRead(from),
        step.wake,
{
    assert(old(router)@[from as int] == old(router).connections@[from as int]@);
    law_message_in_bytes(unread(old(router).connections@[from as int].read_buffer));
    law_parsed_is_encoded(unread(old(router).connections@[from as int].read_buffer));
    lemma_forwards(*old(router), from as int, *final(router), step.waker);
}

/// The task asks to be polled again exactly when the last poll of something in the pass was
/// ready: of the listener, because it failed, or of a client for reading. Otherwise it is
/// polled on until it is pending.
pub proof fn law_wakes_when_ready<S, W, E>(
    router: &mut Router<S, W>,
    pass: Pass,
    event: Event<S, E>,
    step: Step<W>,
)
    requires
        call_ensures(Router::<S, W>::poll_next::<E>, (router, pass, event), step),
    ensures
        step.wake == match event {
            Event::Accepted(outcome) => outcome is Ready && outcome->Ready_0 is Err,
            Event::Sent(_) => false,
            Event::Read(outcome) => outcome is Ready,
        },
{
}

/// What is polled next, by place, where `clients` are connected: first every client for
/// writing, then every client for reading, each after the one before it.
pub open spec fn order(pass: Pass, clients: nat) -> int {
    match pass {
        Pass::PollAccept => -1,
        Pass::PollSend(i) => i as int,
        Pass::PollRead(i) => clients + i,
        Pass::Return => clients + clients as int,
    }
}

/// A client is polled for writing until it is pending, and otherwise every poll that is not to
/// be handed in again goes on to the next in order: no client is left out, and the pass
/// returns after the last and not before.
pub proof fn law_pass_goes_in_order<S, W, E>(
    router: &mut Router<S, W>,
    pass: Pass,
    event: Event<S, E>,
    step: Step<W>,
)
    requires
        call_ensures(Router::<S, W>::poll_next::<E>, (router, pass, event), step),
        old(router).connections@.len() <= usize::MAX,
        match event {
            Event::Accepted(outcome) => pass == Pass::PollAccept && !(outcome is Ready
                && outcome->Ready_0 is Ok),
            Event::Sent(_) => pass matches Pass::PollSend(i) && i < old(router).connections@.len(),
            Event::Read(outcome) => {
                &&& pass matches Pass::PollRead(i)
                &&& i < old(router).connections@.len()
                &&& outcome is Ready ==> deliverable(old(router).connections@, i as int)
            },
        },
    ensures
        final(router).connections@.len() == old(router).connections@.len(),
        (event is Sent && event->Sent_0 is Ready) || step.again ==> step.next == pass,
        !(event is Sent && event->Sent_0 is Ready) && !step.again ==> order(
            step.next,
            final(router).connections@.len(),
        ) == order(pass, old(router).connections@.len()) + 1,
        match step.next {
            Pass::PollSend(i) => i < final(router).connections@.len(),
            Pass::PollRead(i) => i < final(router).connections@.len(),
            _ => true,
        },
{
    assert(old(router)@.len() == old(router).connections@.len());
    assert(final(router)@.len() == final(router).connections@.len());
    if event is Read && event->Read_0 is Ready {
        let i = pass->PollRead_0 as int;
        assert(old(router)@[i] == old(router).connections@[i]@);
        let (after, _) = super::delivered(old(router)@, i);
        assert(after.len() == old(router)@.len());
    }
}

} // verus!
