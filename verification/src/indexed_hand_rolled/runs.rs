//! What a router comes to over a whole run.

use super::{awaits, can_deliver, clients_after, delivered, joined, Event, Pass, SocketView};
use crate::history::{accounted, first_message, Network, Step};
use crate::history::{chained as network_chained, follows as network_follows};
use crate::history::law_whole_run as network_run;
use crate::message::parse;
use crate::poll::Poll;
use crate::wire::network_bytes;
use vstd::prelude::*;

verus! {

/// What the clients sent and are owed.
pub open spec fn network<S, W>(clients: Seq<SocketView<S, W>>) -> Network {
    Network {
        incoming: Map::new(|id: u32| id < clients.len(), |id: u32| clients[id as int].incoming),
        pending: Map::new(|id: u32| id < clients.len(), |id: u32| clients[id as int].pending),
    }
}

/// `step` makes `after` of `before`: what the functions of a router and of its sockets,
/// and whoever reads into their buffers, do to the clients. Nobody leaves.
pub open spec fn follows<S, W>(
    before: Seq<SocketView<S, W>>,
    step: Step,
    after: Seq<SocketView<S, W>>,
) -> bool {
    match step {
        Step::Joined(id) => {
            &&& id == before.len()
            &&& exists|stream: S| after == #[trigger] joined(before, stream)
        },
        Step::Received(id, bytes) => {
            let socket = before[id as int];
            &&& id < before.len()
            &&& after == before.update(
                id as int,
                SocketView { incoming: socket.incoming + bytes, ..socket },
            )
        },
        Step::Took(from, message) => {
            &&& from < before.len()
            &&& can_deliver(before, from as int)
            &&& message == first_message(before[from as int].incoming)
            &&& after == delivered(before, from as int).0
        },
        Step::Wrote(id, bytes) => {
            let socket = before[id as int];
            &&& id < before.len()
            &&& bytes.is_prefix_of(socket.pending)
            &&& after == before.update(
                id as int,
                SocketView { pending: socket.pending.skip(bytes.len() as int), ..socket },
            )
        },
        Step::Left(_) => false,
        Step::Rested => after == before || exists|id: u32, waker: W| #[trigger]
            waits(before, id, waker, after),
    }
}

/// `waker` is remembered for the client `id`.
pub open spec fn waits<S, W>(
    before: Seq<SocketView<S, W>>,
    id: u32,
    waker: W,
    after: Seq<SocketView<S, W>>,
) -> bool {
    &&& id < before.len()
    &&& after == before.update(id as int, SocketView { waker: Some(waker), ..before[id as int] })
}

/// The steps lead from each state to the next.
pub open spec fn chained<S, W>(states: Seq<Seq<SocketView<S, W>>>, steps: Seq<Step>) -> bool {
    &&& states.len() == steps.len() + 1
    &&& forall|i: int|
        0 <= i < steps.len() ==> follows(states[i], #[trigger] steps[i], states[i + 1])
}

proof fn lemma_follows<S, W>(
    before: Seq<SocketView<S, W>>,
    step: Step,
    after: Seq<SocketView<S, W>>,
)
    requires
        follows(before, step, after),
    ensures
        network_follows(network(before), step, network(after)),
{
    let old_network = network(before);
    let new_network = network(after);
    match step {
        Step::Joined(id) => {
            let stream = choose|stream: S| after == #[trigger] joined(before, stream);
            super::law_greeted_first(before, stream);
            assert(new_network.incoming =~= old_network.incoming.insert(id, seq![]));
            assert(new_network.pending =~= old_network.pending.insert(id, network_bytes(id)));
        },
        Step::Received(id, bytes) => {
            assert(new_network.incoming =~= old_network.incoming.insert(
                id,
                old_network.incoming[id] + bytes,
            ));
            assert(new_network.pending =~= old_network.pending);
        },
        Step::Took(from, _) => {
            match parse(before[from as int].incoming) {
                Some((dest, payload, rest)) => {
                    assert(new_network.incoming =~= old_network.incoming.insert(from, rest));
                    assert(new_network.pending =~= old_network.pending.insert(
                        dest,
                        old_network.pending[dest] + payload,
                    ));
                },
                None => {},
            }
        },
        Step::Wrote(id, bytes) => {
            assert(new_network.incoming =~= old_network.incoming);
            assert(new_network.pending =~= old_network.pending.insert(
                id,
                old_network.pending[id].skip(bytes.len() as int),
            ));
        },
        Step::Left(_) => {},
        Step::Rested => {
            assert(new_network.incoming =~= old_network.incoming);
            assert(new_network.pending =~= old_network.pending);
            assert(new_network =~= old_network);
        },
    }
}

/// Over any run of a router, with any number of clients as long as IDs have not run out,
/// in whatever order they join, send, are served and are written to, and however little
/// is written at a time: what was written to a client, followed by what waits, is its ID
/// in network order, followed by what exactly the messages carried that were delivered
/// for it, whole and in that order. And what was delivered of a client, followed by what
/// waits, is exactly the messages that it sent, in order.
pub proof fn law_whole_run<S, W>(states: Seq<Seq<SocketView<S, W>>>, steps: Seq<Step>)
    requires
        chained(states, steps),
        states[0] == Seq::<SocketView<S, W>>::empty(),
    ensures
        forall|id: u32| #[trigger] accounted(steps, network(states.last()), id),
{
    let networks = states.map_values(|clients: Seq<SocketView<S, W>>| network(clients));
    assert(network_chained(networks, steps)) by {
        assert forall|i: int| 0 <= i < steps.len() implies network_follows(
            networks[i],
            #[trigger] steps[i],
            networks[i + 1],
        ) by {
            lemma_follows(states[i], steps[i], states[i + 1]);
        }
    }
    assert(networks[0] =~= Network::empty());
    assert(networks.last() == network(states.last()));
    network_run(networks, steps);
}

/// What an answered poll of a pass is in a run: whoever the listener handed over joined, and
/// what a client that was read from sent was looked at. Every other poll changes no client
/// at all.
pub proof fn law_poll_is_a_step<S, W, E>(
    before: Seq<SocketView<S, W>>,
    pass: Pass,
    event: Event<S, E>,
)
    requires
        awaits(pass, event, before.len()),
        event matches Event::Read(Poll::Ready(_)) ==> can_deliver(
            before,
            pass->PollRead_0 as int,
        ),
        before.len() <= u32::MAX,
    ensures
        match event {
            Event::Accepted(Poll::Ready(Ok(stream))) => {
                let after = clients_after(before, pass, event);
                &&& follows(before, Step::Joined(before.len() as u32), after)
                &&& after.last().stream == stream
            },
            Event::Read(Poll::Ready(_)) => {
                let from = pass->PollRead_0 as u32;
                follows(
                    before,
                    Step::Took(from, first_message(before[from as int].incoming)),
                    clients_after(before, pass, event),
                )
            },
            _ => clients_after(before, pass, event) == before,
        },
{
    if let Event::Accepted(Poll::Ready(Ok(stream))) = event {
        assert(clients_after(before, pass, event) == joined(before, stream));
    }
}

} // verus!
