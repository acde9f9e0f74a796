//! What one whole call of `Socket::poll_send` or `Socket::poll_read` comes to.

use super::{read_step, send_step, ReadAction, ReadEvent, SendAction, SendEvent, SocketView};
use crate::poll::Poll;
use crate::queue::{law_written_skips, written};
use vstd::prelude::*;

verus! {

/// The event answers what [`super::Socket::poll_send`] does.
pub open spec fn answers_send<W, E>(action: SendAction<E>, event: SendEvent<W, E>) -> bool {
    match action {
        SendAction::PollWriteReady => event is WriteReady,
        SendAction::TryWrite => event is Wrote,
        SendAction::Return(_) => false,
    }
}

/// The socket once a call of [`super::Socket::poll_send`] came as far as `events`.
pub open spec fn socket_after<S, W, E>(
    socket: SocketView<S, W>,
    events: Seq<SendEvent<W, E>>,
) -> SocketView<S, W>
    decreases events.len(),
{
    if events.len() == 0 {
        socket
    } else {
        send_step(socket_after(socket, events.drop_last()), events.last()).1
    }
}

/// What the call does then.
pub open spec fn send_action<S, W, E>(
    socket: SocketView<S, W>,
    events: Seq<SendEvent<W, E>>,
) -> SendAction<E>
    recommends
        events.len() > 0,
{
    send_step(socket_after(socket, events.drop_last()), events.last()).0
}

/// `events` is what happens in a call of [`super::Socket::poll_send`] from its beginning:
/// each event answers what the call did before, and no more is written than was offered.
pub open spec fn send_call<S, W, E>(
    socket: SocketView<S, W>,
    events: Seq<SendEvent<W, E>>,
) -> bool
    decreases events.len(),
{
    if events.len() <= 1 {
        events.len() == 1 && events[0] is Begin
    } else {
        let past = events.drop_last();
        &&& send_call(socket, past)
        &&& answers_send(send_action(socket, past), events.last())
        &&& events.last() matches SendEvent::Wrote(Ok(n)) ==> n <= socket.outgoing[0].len()
    }
}

/// How often something was written.
pub open spec fn writes<W, E>(events: Seq<SendEvent<W, E>>) -> nat
    decreases events.len(),
{
    if events.len() == 0 {
        0
    } else {
        writes(events.drop_last()) + if events.last() matches SendEvent::Wrote(Ok(_)) {
            1nat
        } else {
            0nat
        }
    }
}

proof fn lemma_send_call<S, W, E>(socket: SocketView<S, W>, events: Seq<SendEvent<W, E>>)
    requires
        send_call(socket, events),
    ensures
        !(send_action(socket, events) is Return) ==> {
            &&& writes(events) == 0
            &&& socket_after(socket, events) == socket
            &&& socket.outgoing.len() > 0
        },
        send_action(socket, events) matches SendAction::Return(outcome) ==> if outcome matches Poll::Ready(Ok(_)) {
            &&& writes(events) == 1
            &&& events.last() matches SendEvent::Wrote(Ok(n))
            &&& n <= socket.outgoing[0].len()
            &&& socket_after(socket, events) == (SocketView { outgoing: written(socket.outgoing, n as int), ..socket })
            &&& socket.outgoing.len() > 0
        } else {
            &&& writes(events) == 0
            &&& socket_after(socket, events).outgoing == socket.outgoing
            &&& socket_after(socket, events).incoming == socket.incoming
        },
    decreases events.len(),
{
    let past = events.drop_last();
    assert(past.len() == 0 ==> writes(past) == 0 && socket_after(socket, past) == socket);
    if events.len() > 1 {
        lemma_send_call(socket, past);
        assert(!(send_action(socket, past) is Return));
    }
}

/// A call of `poll_send` that returns ready without an error made exactly one write, its last act:
/// what was written is gone from the front of what waits, and nothing else changed. A
/// call that returns otherwise wrote nothing.
pub proof fn law_one_write<S, W, E>(
    socket: SocketView<S, W>,
    events: Seq<SendEvent<W, E>>,
    outcome: Poll<Result<(), E>>,
)
    requires
        send_call(socket, events),
        send_action(socket, events) == SendAction::<E>::Return(outcome),
    ensures
        if outcome matches Poll::Ready(Ok(_)) {
            &&& writes(events) == 1
            &&& events.last() matches SendEvent::Wrote(Ok(n))
            &&& n <= socket.outgoing[0].len()
            &&& socket_after(socket, events) == (SocketView { outgoing: written(socket.outgoing, n as int), ..socket })
        } else {
            &&& writes(events) == 0
            &&& socket_after(socket, events).outgoing == socket.outgoing
            &&& socket_after(socket, events).incoming == socket.incoming
        },
        socket.outgoing.len() == 0 ==> outcome is Pending,
{
    lemma_send_call(socket, events);
    if socket.outgoing.len() == 0 {
        lemma_nothing_to_write(socket, events);
    }
}

proof fn lemma_nothing_to_write<S, W, E>(
    socket: SocketView<S, W>,
    events: Seq<SendEvent<W, E>>,
)
    requires
        send_call(socket, events),
        socket.outgoing.len() == 0,
    ensures
        events.len() == 1,
        send_action(socket, events) == SendAction::<E>::Return(Poll::Pending),
{
    let past = events.drop_last();
    if events.len() > 1 {
        lemma_send_call(socket, past);
    }
}

/// The event answers what [`super::Socket::poll_read`] does.
pub open spec fn answers_read<E>(action: ReadAction<E>, event: ReadEvent<E>) -> bool {
    match action {
        ReadAction::PollReadReady => event is ReadReady,
        ReadAction::TryRead => event is Read,
        ReadAction::Return(_) => false,
    }
}

/// `events` is what happens in a call of [`super::Socket::poll_read`] from its beginning:
/// each event answers what the call did before.
pub open spec fn read_call<E>(events: Seq<ReadEvent<E>>) -> bool
    decreases events.len(),
{
    if events.len() <= 1 {
        events.len() == 1 && events[0] is Begin
    } else {
        let past = events.drop_last();
        read_call(past) && answers_read(read_step(past.last()), events.last())
    }
}

/// How often the stream was read from.
pub open spec fn reads<E>(events: Seq<ReadEvent<E>>) -> nat
    decreases events.len(),
{
    if events.len() == 0 {
        0
    } else {
        reads(events.drop_last()) + if events.last() matches ReadEvent::Read(Ok(_)) {
            1nat
        } else {
            0nat
        }
    }
}

proof fn lemma_read_call<E>(events: Seq<ReadEvent<E>>)
    requires
        read_call(events),
    ensures
        reads(events) == if events.last() matches ReadEvent::Read(Ok(_)) {
            1nat
        } else {
            0nat
        },
    decreases events.len(),
{
    let past = events.drop_last();
    assert(past.len() == 0 ==> reads(past) == 0);
    if events.len() > 1 {
        lemma_read_call(past);
    }
}

/// A call of `poll_read` that returns ready without an error made exactly one read, its last act. A call
/// that returns otherwise read nothing.
pub proof fn law_one_read<E>(events: Seq<ReadEvent<E>>, outcome: Poll<Result<(), E>>)
    requires
        read_call(events),
        read_step(events.last()) == ReadAction::<E>::Return(outcome),
    ensures
        if outcome matches Poll::Ready(Ok(_)) {
            &&& reads(events) == 1
            &&& events.last() matches ReadEvent::Read(Ok(_))
        } else {
            reads(events) == 0
        },
{
    lemma_read_call(events);
}

/// A call of `poll_send` that returns that it is pending found nothing to write, and then
/// remembers whom to wake; or it polled the stream, and the stream was pending and wakes
/// whoever called.
pub proof fn law_pending_call<S, W, E>(
    socket: SocketView<S, W>,
    events: Seq<SendEvent<W, E>>,
)
    requires
        send_call(socket, events),
        send_action(socket, events) == SendAction::<E>::Return(Poll::Pending),
    ensures
        socket.outgoing.len() == 0 ==> {
            &&& events.len() == 1
            &&& events[0] matches SendEvent::Begin(waker)
            &&& socket_after(socket, events).waker == Some(waker)
        },
        socket.outgoing.len() > 0 ==> {
            &&& events.last() matches SendEvent::WriteReady(Poll::Pending)
            &&& socket_after(socket, events) == socket
        },
{
    lemma_send_call(socket, events);
    let past = events.drop_last();
    if socket.outgoing.len() == 0 {
        lemma_nothing_to_write(socket, events);
        assert(socket_after(socket, past) == socket);
    } else if events.len() > 1 {
        lemma_send_call(socket, past);
    } else {
        assert(socket_after(socket, past) == socket);
    }
}

/// What happens in a call of `poll_send` whose stream is ready and takes `n` bytes.
pub open spec fn ready_call<W, E>(waker: W, n: usize) -> Seq<SendEvent<W, E>> {
    seq![
        SendEvent::Begin(waker),
        SendEvent::WriteReady(Poll::Ready(Ok(()))),
        SendEvent::Wrote(Ok(n)),
    ]
}

/// Where something waits, however long it is, and the stream is ready and takes some of it,
/// the call writes that and returns ready.
pub proof fn law_ready_stream_is_written<S, W, E>(socket: SocketView<S, W>, waker: W, n: usize)
    requires
        socket.outgoing.len() > 0,
        n <= socket.outgoing[0].len(),
    ensures
        send_call(socket, ready_call::<W, E>(waker, n)),
        send_action(socket, ready_call::<W, E>(waker, n)) == SendAction::<E>::Return(
            Poll::Ready(Ok(())),
        ),
        writes(ready_call::<W, E>(waker, n)) == 1,
        socket_after(socket, ready_call::<W, E>(waker, n)).pending() == socket.pending().skip(n as int),
{
    let events = ready_call::<W, E>(waker, n);
    let first: Seq<SendEvent<W, E>> = seq![SendEvent::Begin(waker)];
    let second: Seq<SendEvent<W, E>> = seq![
        SendEvent::Begin(waker),
        SendEvent::WriteReady(Poll::Ready(Ok(()))),
    ];
    assert(events.drop_last() =~= second);
    assert(second.drop_last() =~= first);
    assert(first.drop_last() =~= seq![]);
    assert(socket_after(socket, first.drop_last()) == socket);
    assert(send_call(socket, first));
    assert(send_call(socket, second));
    assert(send_call(socket, events));
    lemma_send_call(socket, events);
    law_written_skips(socket.outgoing, n as int);
}

/// The socket once it was polled for writing `calls` times by `waker`, with a stream that
/// was always ready and took all that it was offered.
pub open spec fn polled_while_ready<S, W, E>(
    socket: SocketView<S, W>,
    waker: W,
    calls: nat,
) -> SocketView<S, W>
    decreases calls,
{
    if calls == 0 || socket.outgoing.len() == 0 {
        socket
    } else {
        polled_while_ready::<S, W, E>(
            socket_after(socket, ready_call::<W, E>(waker, socket.outgoing[0].len() as usize)),
            waker,
            (calls - 1) as nat,
        )
    }
}

/// A client whose stream stays ready is written all that waits for it.
pub proof fn law_all_is_written_in_the_end<S, W, E>(socket: SocketView<S, W>, waker: W)
    requires
        forall|i: int| 0 <= i < socket.outgoing.len() ==> (#[trigger] socket.outgoing[i]).len() <= usize::MAX,
    ensures
        polled_while_ready::<S, W, E>(socket, waker, socket.outgoing.len()).outgoing.len() == 0,
    decreases socket.outgoing.len(),
{
    if socket.outgoing.len() > 0 {
        let n = socket.outgoing[0].len() as usize;
        law_ready_stream_is_written::<S, W, E>(socket, waker, n);
        let after = socket_after(socket, ready_call::<W, E>(waker, n));
        law_one_write(
            socket,
            ready_call::<W, E>(waker, n),
            Poll::Ready(Ok(())),
        );
        assert(after.outgoing == socket.outgoing.drop_first());
        assert forall|i: int| 0 <= i < after.outgoing.len() implies (
        #[trigger] after.outgoing[i]).len() <= usize::MAX by {
            assert(after.outgoing[i] == socket.outgoing[i + 1]);
        }
        law_all_is_written_in_the_end::<S, W, E>(after, waker);
    }
}

} // verus!
