//! What a router comes to over a whole run.

use super::{ReadSocketView, RouterView, WriteSocketView};
use crate::history::{accounted, first_message, Network, Step};
use crate::history::{chained as network_chained, follows as network_follows};
use crate::history::law_whole_run as network_run;
use crate::message::parse;
use vstd::prelude::*;

verus! {

impl<R, W> RouterView<R, W> {
    /// What the clients sent and are owed.
    pub open spec fn network(self) -> Network {
        Network {
            incoming: Map::new(
                |id: u32| id < self.readers.len(),
                |id: u32| self.readers[id as int].incoming,
            ),
            pending: Map::new(
                |id: u32| id < self.writers.len(),
                |id: u32| self.writers[id as int].pending,
            ),
        }
    }

    /// The clients once `bytes` were read into the buffer of `id`.
    pub open spec fn received(self, id: u32, bytes: Seq<u8>) -> Self {
        let socket = self.readers[id as int];
        RouterView {
            readers: self.readers.update(
                id as int,
                ReadSocketView { incoming: socket.incoming + bytes, ..socket },
            ),
            ..self
        }
    }

    /// The clients once the first `n` bytes that waited were written to `id`.
    pub open spec fn wrote(self, id: u32, n: int) -> Self {
        let socket = self.writers[id as int];
        RouterView {
            writers: self.writers.update(
                id as int,
                WriteSocketView { pending: socket.pending.skip(n), ..socket },
            ),
            ..self
        }
    }
}

/// `step` makes `after` of `before`: what the functions of a router, and whoever reads
/// into its buffers and writes them, do to it. Nobody leaves.
pub open spec fn follows<R, W>(
    before: RouterView<R, W>,
    step: Step,
    after: RouterView<R, W>,
) -> bool {
    &&& before.paired()
    &&& match step {
        Step::Joined(id) => {
            &&& id == before.writers.len()
            &&& exists|reader: R, writer: W| after == #[trigger] before.joined(reader, writer)
        },
        Step::Received(id, bytes) => {
            &&& id < before.readers.len()
            &&& after == before.received(id, bytes)
        },
        Step::Took(from, message) => {
            &&& from < before.readers.len()
            &&& before.can_deliver(from as int)
            &&& message == first_message(before.readers[from as int].incoming)
            &&& after == before.delivered(from as int)
        },
        Step::Wrote(id, bytes) => {
            &&& id < before.writers.len()
            &&& bytes.is_prefix_of(before.writers[id as int].pending)
            &&& after == before.wrote(id, bytes.len() as int)
        },
        Step::Left(_) => false,
        Step::Rested => after == before,
    }
}

/// The steps lead from each state to the next.
pub open spec fn chained<R, W>(states: Seq<RouterView<R, W>>, steps: Seq<Step>) -> bool {
    &&& states.len() == steps.len() + 1
    &&& forall|i: int|
        0 <= i < steps.len() ==> follows(states[i], #[trigger] steps[i], states[i + 1])
}

proof fn lemma_follows<R, W>(before: RouterView<R, W>, step: Step, after: RouterView<R, W>)
    requires
        follows(before, step, after),
    ensures
        network_follows(before.network(), step, after.network()),
{
    let old_network = before.network();
    let new_network = after.network();
    match step {
        Step::Joined(id) => {
            assert(new_network.incoming =~= old_network.incoming.insert(id, seq![]));
            assert(new_network.pending =~= old_network.pending.insert(
                id,
                crate::wire::network_bytes(id),
            ));
        },
        Step::Received(id, bytes) => {
            assert(new_network.incoming =~= old_network.incoming.insert(
                id,
                old_network.incoming[id] + bytes,
            ));
            assert(new_network.pending =~= old_network.pending);
        },
        Step::Took(from, _) => {
            match parse(before.readers[from as int].incoming) {
                Some((dest, payload, rest)) => {
                    assert(new_network.incoming =~= old_network.incoming.insert(from, rest));
                    assert(new_network.pending =~= old_network.pending.insert(
                        dest,
                        old_network.pending[dest] + payload,
                    ));
                },
                None => {},
            }
        },
        Step::Wrote(id, bytes) => {
            assert(new_network.incoming =~= old_network.incoming);
            assert(new_network.pending =~= old_network.pending.insert(
                id,
                old_network.pending[id].skip(bytes.len() as int),
            ));
        },
        _ => {},
    }
}

/// Over any run of a router, with any number of clients as long as IDs have not run out,
/// in whatever order they join, send, are served and are written to, and however little
/// is written at a time: what was written to a client, followed by what waits, is its ID
/// in network order, followed by what exactly the messages carried that were delivered
/// for it, whole and in that order. And what was delivered of a client, followed by what
/// waits, is exactly the messages that it sent, in order.
pub proof fn law_whole_run<R, W>(states: Seq<RouterView<R, W>>, steps: Seq<Step>)
    requires
        chained(states, steps),
        states[0] == (RouterView::<R, W> { readers: seq![], writers: seq![] }),
    ensures
        forall|id: u32| #[trigger] accounted(steps, states.last().network(), id),
{
    let networks = states.map_values(|state: RouterView<R, W>| state.network());
    assert(network_chained(networks, steps)) by {
        assert forall|i: int| 0 <= i < steps.len() implies network_follows(
            networks[i],
            #[trigger] steps[i],
            networks[i + 1],
        ) by {
            lemma_follows(states[i], steps[i], states[i + 1]);
        }
    }
    assert(networks[0] =~= Network::empty());
    assert(networks.last() == states.last().network());
    network_run(networks, steps);
}

} // verus!
