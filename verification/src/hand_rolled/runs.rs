//! What a server comes to over a whole run.

use super::{delivered, joined, turn, Event, PassView, SocketView};
use crate::history::{accounted, first_message, Network, Step};
use crate::history::{chained as network_chained, follows as network_follows};
use crate::history::law_whole_run as network_run;
use crate::message::parse;
use crate::poll::Poll;
use crate::queue::{law_push_appends, written};
use vstd::prelude::*;

verus! {

/// What the clients sent and are owed.
pub open spec fn network<S, W>(clients: Map<u32, SocketView<S, W>>) -> Network {
    Network {
        incoming: clients.map_values(|socket: SocketView<S, W>| socket.incoming),
        pending: clients.map_values(|socket: SocketView<S, W>| socket.pending()),
    }
}

/// `step` makes `after` of `before`: what the functions of a server and of its sockets,
/// and whoever reads into their buffers, do to the clients.
pub open spec fn follows<S, W>(
    before: Map<u32, SocketView<S, W>>,
    step: Step,
    after: Map<u32, SocketView<S, W>>,
) -> bool {
    match step {
        Step::Joined(id) => someone_joins(before, id, after),
        Step::Received(id, bytes) => {
            let socket = before[id];
            &&& before.contains_key(id)
            &&& after == before.insert(
                id,
                SocketView { incoming: socket.incoming + bytes, ..socket },
            )
        },
        Step::Took(from, message) => {
            &&& before.contains_key(from)
            &&& message == first_message(before[from].incoming)
            &&& after == delivered(before, from).0
        },
        Step::Wrote(id, bytes) => {
            let socket = before[id];
            &&& before.contains_key(id)
            &&& socket.outgoing.len() > 0
            &&& bytes.is_prefix_of(socket.outgoing[0])
            &&& after == before.insert(
                id,
                SocketView { outgoing: written(socket.outgoing, bytes.len() as int), ..socket },
            )
        },
        Step::Left(id) => after == before.remove(id),
        Step::Rested => after == before || exists|id: u32, waker: W| #[trigger]
            waits(before, id, waker, after),
    }
}

/// `stream` is connected under `id`.
pub open spec fn joins<S, W>(
    before: Map<u32, SocketView<S, W>>,
    stream: S,
    id: u32,
    after: Map<u32, SocketView<S, W>>,
) -> bool {
    after == joined(before, stream, id)
}

/// Some stream is connected under `id`.
pub open spec fn someone_joins<S, W>(
    before: Map<u32, SocketView<S, W>>,
    id: u32,
    after: Map<u32, SocketView<S, W>>,
) -> bool {
    exists|stream: S| #[trigger] joins(before, stream, id, after)
}

/// `waker` is remembered for the client `id`.
pub open spec fn waits<S, W>(
    before: Map<u32, SocketView<S, W>>,
    id: u32,
    waker: W,
    after: Map<u32, SocketView<S, W>>,
) -> bool {
    &&& before.contains_key(id)
    &&& after == before.insert(id, SocketView { waker: Some(waker), ..before[id] })
}

/// The steps lead from each state to the next.
pub open spec fn chained<S, W>(
    states: Seq<Map<u32, SocketView<S, W>>>,
    steps: Seq<Step>,
) -> bool {
    &&& states.len() == steps.len() + 1
    &&& forall|i: int|
        0 <= i < steps.len() ==> follows(states[i], #[trigger] steps[i], states[i + 1])
}

proof fn lemma_wrote<S, W>(socket: SocketView<S, W>, bytes: Seq<u8>)
    requires
        socket.outgoing.len() > 0,
        bytes.is_prefix_of(socket.outgoing[0]),
    ensures
        bytes.is_prefix_of(socket.pending()),
        written(socket.outgoing, bytes.len() as int).flatten() == socket.pending().skip(
            bytes.len() as int,
        ),
{
    let n = bytes.len() as int;
    super::law_writes_in_order(socket, n);
    assert(bytes =~= socket.outgoing[0].take(n));
    assert(socket.pending() == socket.outgoing[0] + socket.outgoing.drop_first().flatten());
    assert(bytes =~= socket.pending().take(n));
    assert(bytes.is_prefix_of(socket.pending()));
}

proof fn lemma_took<S, W>(before: Map<u32, SocketView<S, W>>, from: u32)
    requires
        before.contains_key(from),
    ensures
        network_follows(
            network(before),
            Step::Took(from, first_message(before[from].incoming)),
            network(delivered(before, from).0),
        ),
{
    let old_network = network(before);
    let new_network = network(delivered(before, from).0);
    if let Some((dest, payload, rest)) = parse(before[from].incoming) {
        assert(new_network.incoming =~= old_network.incoming.insert(from, rest));
        if before.contains_key(dest) {
            law_push_appends(before[dest].outgoing, payload);
            assert(new_network.pending =~= old_network.pending.insert(
                dest,
                old_network.pending[dest] + payload,
            ));
        } else {
            assert(new_network.pending =~= old_network.pending);
        }
    }
}

proof fn lemma_follows<S, W>(
    before: Map<u32, SocketView<S, W>>,
    step: Step,
    after: Map<u32, SocketView<S, W>>,
)
    requires
        follows(before, step, after),
    ensures
        network_follows(network(before), step, network(after)),
{
    let old_network = network(before);
    let new_network = network(after);
    match step {
        Step::Joined(id) => {
            let stream = choose|stream: S| #[trigger] joins(before, stream, id, after);
            super::law_greeted_first(before, stream, id);
            assert(new_network.incoming =~= old_network.incoming.insert(id, seq![]));
            assert(new_network.pending =~= old_network.pending.insert(id, after[id].pending()));
        },
        Step::Received(id, bytes) => {
            assert(new_network.incoming =~= old_network.incoming.insert(
                id,
                old_network.incoming[id] + bytes,
            ));
            assert(new_network.pending =~= old_network.pending);
        },
        Step::Took(from, _) => {
            lemma_took(before, from);
        },
        Step::Wrote(id, bytes) => {
            lemma_wrote(before[id], bytes);
            assert(new_network.incoming =~= old_network.incoming);
            assert(new_network.pending =~= old_network.pending.insert(
                id,
                old_network.pending[id].skip(bytes.len() as int),
            ));
        },
        Step::Left(id) => {
            assert(new_network.incoming =~= old_network.incoming.remove(id));
            assert(new_network.pending =~= old_network.pending.remove(id));
        },
        Step::Rested => {
            assert(new_network =~= old_network);
        },
    }
}

/// Over any run of a server, with any number of clients, in whatever order they join,
/// send, are served, are written to and leave, and however little is written at a time:
/// what was written to a client, followed by what waits, is its ID in network order,
/// followed by what exactly the messages carried that were delivered for it, whole and
/// in that order. And what was delivered of a client, followed by what waits, is exactly
/// the messages that it sent, in order.
pub proof fn law_whole_run<S, W>(states: Seq<Map<u32, SocketView<S, W>>>, steps: Seq<Step>)
    requires
        chained(states, steps),
        states[0] == Map::<u32, SocketView<S, W>>::empty(),
    ensures
        forall|id: u32| #[trigger] accounted(steps, network(states.last()), id),
{
    let networks = states.map_values(|clients: Map<u32, SocketView<S, W>>| network(clients));
    assert(network_chained(networks, steps)) by {
        assert forall|i: int| 0 <= i < steps.len() implies network_follows(
            networks[i],
            #[trigger] steps[i],
            networks[i + 1],
        ) by {
            lemma_follows(states[i], steps[i], states[i + 1]);
        }
    }
    assert(networks[0] =~= Network::empty());
    assert(networks.last() == network(states.last()));
    network_run(networks, steps);
}

/// What an answered poll of a pass is in a run: whoever the listener handed over joined, what
/// a client that was read from sent was looked at, and a client that could not be read from
/// left. Every other poll changes no client at all.
pub proof fn law_turn_is_a_step<S, W, E>(
    before: Map<u32, SocketView<S, W>>,
    pass: PassView,
    event: Event<S, E>,
    after: Map<u32, SocketView<S, W>>,
    next: PassView,
    step: super::Step<W, E>,
)
    requires
        pass.valid(before.dom()),
        pass.awaits(event),
        turn(before, pass, event, after, next, step),
    ensures
        match event {
            Event::Accepted(Poll::Ready(Ok(stream))) => exists|id: u32|
                {
                    &&& #[trigger] follows(before, Step::Joined(id), after)
                    &&& after[id].stream == stream
                },
            Event::Read(Poll::Ready(Ok(_))) => {
                let from = pass.todo.last();
                follows(before, Step::Took(from, first_message(before[from].incoming)), after)
            },
            Event::Read(Poll::Ready(Err(_))) => follows(
                before,
                Step::Left(pass.todo.last()),
                after,
            ),
            _ => after == before,
        },
{
    match event {
        Event::Accepted(Poll::Ready(Ok(stream))) => {
            let id = choose|id: u32|
                crate::identity::drawn(id) && after == #[trigger] joined(before, stream, id);
            assert(joins(before, stream, id, after));
            assert(someone_joins(before, id, after));
            assert(follows(before, Step::Joined(id), after));
        },
        Event::Read(_) => {
            assert(before.dom().contains(pass.todo.last()));
        },
        _ => {},
    }
}

} // verus!
