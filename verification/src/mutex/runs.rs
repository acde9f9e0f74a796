//! What tasks that serve a list of clients come to over a whole run.

use crate::history::{accounted, connected, first_message, mail, received, taken, written};
use crate::history::{chained as network_chained, follows as network_follows};
use crate::history::{law_whole_run as network_run, lemma_none_written, Network, Step};
use crate::message::{leftover, messages, parse};
use crate::wire::network_bytes;
use vstd::prelude::*;

verus! {

/// The clients, each with the task that serves it, by place.
#[verifier::ext_equal]
pub struct Tasks<W> {
    /// What is written to.
    pub connections: Seq<W>,
    /// What each client sent and its task made no message of yet.
    pub buffers: Seq<Seq<u8>>,
    /// What was handed out to be written to each client, all of it.
    pub handed: Seq<Seq<u8>>,
}

impl<W> Tasks<W> {
    /// Nobody is connected.
    pub open spec fn none() -> Self {
        Tasks { connections: seq![], buffers: seq![], handed: seq![] }
    }

    /// Every client is written to and has a task.
    pub open spec fn paired(self) -> bool {
        &&& self.buffers.len() == self.connections.len()
        &&& self.handed.len() == self.connections.len()
    }

    /// The clients once one joined, and was to be told its ID first.
    pub open spec fn joined(self, write: W) -> Self {
        Tasks {
            connections: self.connections.push(write),
            buffers: self.buffers.push(seq![]),
            handed: self.handed.push(network_bytes(self.connections.len() as u32)),
        }
    }

    /// The clients once `id` sent `bytes`.
    pub open spec fn received(self, id: u32, bytes: Seq<u8>) -> Self {
        Tasks {
            buffers: self.buffers.update(id as int, self.buffers[id as int] + bytes),
            ..self
        }
    }

    /// The clients once the task of `from` looked for a message and, if there was one,
    /// wrote it to its destination.
    pub open spec fn stepped(self, from: u32) -> Self {
        match parse(self.buffers[from as int]) {
            Some((dest, payload, rest)) => Tasks {
                buffers: self.buffers.update(from as int, rest),
                handed: self.handed.update(dest as int, self.handed[dest as int] + payload),
                ..self
            },
            None => self,
        }
    }

    /// What the clients sent and were handed.
    pub open spec fn network(self) -> Network {
        Network {
            incoming: Map::new(
                |id: u32| id < self.buffers.len(),
                |id: u32| self.buffers[id as int],
            ),
            pending: Map::new(|id: u32| id < self.handed.len(), |id: u32| self.handed[id as int]),
        }
    }
}

/// `step` makes `after` of `before`. Nobody leaves, and a message is for somebody who is
/// connected.
pub open spec fn follows<W>(before: Tasks<W>, step: Step, after: Tasks<W>) -> bool {
    match step {
        Step::Joined(id) => {
            &&& id == before.connections.len()
            &&& exists|write: W| after == #[trigger] before.joined(write)
        },
        Step::Received(id, bytes) => {
            &&& id < before.connections.len()
            &&& after == before.received(id, bytes)
        },
        Step::Took(from, message) => {
            &&& from < before.connections.len()
            &&& message == first_message(before.buffers[from as int])
            &&& message matches Some((dest, _)) ==> dest < before.connections.len()
            &&& after == before.stepped(from)
        },
        Step::Wrote(_, _) => false,
        Step::Left(_) => false,
        Step::Rested => after == before,
    }
}

/// The steps lead from each state to the next.
pub open spec fn chained<W>(states: Seq<Tasks<W>>, steps: Seq<Step>) -> bool {
    &&& states.len() == steps.len() + 1
    &&& forall|i: int|
        0 <= i < steps.len() ==> follows(states[i], #[trigger] steps[i], states[i + 1])
}

/// What was handed out for the client `id`, if it is connected, is its ID and then what
/// the messages for it carried. What was taken off it, followed by what waits, is what it
/// sent.
pub open spec fn forwarded<W>(steps: Seq<Step>, end: Tasks<W>, id: u32) -> bool {
    &&& connected(steps, id) == (id < end.connections.len())
    &&& connected(steps, id) ==> {
        &&& end.handed[id as int] == network_bytes(id) + mail(steps, id).flatten()
        &&& taken(steps, id) + messages(end.buffers[id as int]) == messages(received(steps, id))
        &&& leftover(end.buffers[id as int]) == leftover(received(steps, id))
    }
}

proof fn lemma_paired<W>(states: Seq<Tasks<W>>, steps: Seq<Step>, i: int)
    requires
        chained(states, steps),
        states[0].paired(),
        0 <= i < states.len(),
    ensures
        states[i].paired(),
    decreases i,
{
    if i > 0 {
        lemma_paired(states, steps, i - 1);
        assert(follows(states[i - 1], steps[i - 1], states[i]));
    }
}

proof fn lemma_follows<W>(before: Tasks<W>, step: Step, after: Tasks<W>)
    requires
        before.paired(),
        follows(before, step, after),
    ensures
        network_follows(before.network(), step, after.network()),
{
    let old_network = before.network();
    let new_network = after.network();
    match step {
        Step::Joined(id) => {
            assert(new_network.incoming =~= old_network.incoming.insert(id, seq![]));
            assert(new_network.pending =~= old_network.pending.insert(id, network_bytes(id)));
        },
        Step::Received(id, bytes) => {
            assert(new_network.incoming =~= old_network.incoming.insert(
                id,
                old_network.incoming[id] + bytes,
            ));
            assert(new_network.pending =~= old_network.pending);
        },
        Step::Took(from, _) => {
            match parse(before.buffers[from as int]) {
                Some((dest, payload, rest)) => {
                    assert(new_network.incoming =~= old_network.incoming.insert(from, rest));
                    assert(new_network.pending =~= old_network.pending.insert(
                        dest,
                        old_network.pending[dest] + payload,
                    ));
                },
                None => {},
            }
        },
        _ => {},
    }
}

/// Over any run, with any number of clients as long as IDs have not run out, in whatever
/// order they join and send and their tasks serve them: what is written to a client is
/// first its ID in network order, and then what exactly the messages for it carried,
/// whole and in the order in which they were taken. What was taken off a client,
/// followed by what waits in its buffer, is exactly the messages that it sent, in order.
pub proof fn law_whole_run<W>(states: Seq<Tasks<W>>, steps: Seq<Step>)
    requires
        chained(states, steps),
        states[0] == Tasks::<W>::none(),
    ensures
        forall|id: u32| #[trigger] forwarded(steps, states.last(), id),
{
    let networks = states.map_values(|state: Tasks<W>| state.network());
    assert(network_chained(networks, steps)) by {
        assert forall|i: int| 0 <= i < steps.len() implies network_follows(
            networks[i],
            #[trigger] steps[i],
            networks[i + 1],
        ) by {
            lemma_paired(states, steps, i);
            lemma_follows(states[i], steps[i], states[i + 1]);
        }
    }
    assert(networks[0] =~= Network::empty());
    network_run(networks, steps);
    let end = states.last();
    assert(networks.last() == end.network());
    lemma_paired(states, steps, steps.len() as int);
    assert forall|id: u32| #[trigger] forwarded(steps, end, id) by {
        assert(accounted(steps, end.network(), id));
        lemma_none_written(steps, id);
        assert(written(steps, id) + end.network().pending[id] =~= end.network().pending[id]);
    }
}

} // verus!
