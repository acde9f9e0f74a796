//! What tasks that serve a table of clients come to over a whole run.

use super::{handled, ActionView};
use crate::history::{accounted, connected, first_message, mail, received, taken, written};
use crate::history::{chained as network_chained, follows as network_follows};
use crate::history::{law_whole_run as network_run, lemma_none_written, Network, Step};
use crate::message::{leftover, messages, parse};
use crate::poll::ended;
use crate::wire::network_bytes;
use vstd::prelude::*;

verus! {

/// The clients, each with the task that serves it, by ID.
#[verifier::ext_equal]
#[verifier::reject_recursive_types(S)]
pub struct Tasks<S> {
    /// What is written to.
    pub connections: Map<u32, S>,
    /// What each client sent and its task made no message of yet.
    pub buffers: Map<u32, Seq<u8>>,
    /// What was handed out to be written to each client, all of it.
    pub handed: Map<u32, Seq<u8>>,
}

impl<S> Tasks<S> {
    /// Nobody is connected.
    pub open spec fn none() -> Self {
        Tasks { connections: Map::empty(), buffers: Map::empty(), handed: Map::empty() }
    }

    /// Every client is written to and has a task.
    pub open spec fn paired(self) -> bool {
        &&& self.buffers.dom() == self.connections.dom()
        &&& self.handed.dom() == self.connections.dom()
    }

    /// The clients once one was told its ID and joined.
    pub open spec fn joined(self, id: u32, socket: S) -> Self {
        Tasks {
            connections: self.connections.insert(id, socket),
            buffers: self.buffers.insert(id, seq![]),
            handed: self.handed.insert(id, network_bytes(id)),
        }
    }

    /// The clients once `id` sent `bytes`.
    pub open spec fn received(self, id: u32, bytes: Seq<u8>) -> Self {
        Tasks { buffers: self.buffers.insert(id, self.buffers[id] + bytes), ..self }
    }

    /// The clients once the task of `from` did what it is to do after a read that gave
    /// `outcome`.
    pub open spec fn acted<E>(self, from: u32, outcome: Result<usize, E>) -> Self {
        let (action, connections, left) = handled(
            self.connections,
            from,
            self.buffers[from],
            outcome,
        );
        match action {
            ActionView::Forward(dest, payload) => Tasks {
                connections,
                buffers: self.buffers.insert(from, left),
                handed: self.handed.insert(dest, self.handed[dest] + payload),
            },
            ActionView::Close => Tasks {
                connections,
                buffers: self.buffers.remove(from),
                handed: self.handed.remove(from),
            },
            _ => Tasks {
                connections,
                buffers: self.buffers.insert(from, left),
                handed: self.handed,
            },
        }
    }

    /// What the clients sent and were handed.
    pub open spec fn network(self) -> Network {
        Network { incoming: self.buffers, pending: self.handed }
    }
}

/// `step` makes `after` of `before`, where the reads gave `outcome`. No ID is given twice
/// at a time.
pub open spec fn follows<S, E>(
    before: Tasks<S>,
    step: Step,
    outcome: Result<usize, E>,
    after: Tasks<S>,
) -> bool {
    match step {
        Step::Joined(id) => {
            &&& !before.connections.contains_key(id)
            &&& exists|socket: S| after == #[trigger] before.joined(id, socket)
        },
        Step::Received(id, bytes) => {
            &&& before.connections.contains_key(id)
            &&& after == before.received(id, bytes)
        },
        Step::Took(from, message) => {
            &&& before.connections.contains_key(from)
            &&& message == first_message(before.buffers[from])
            &&& message is None ==> !ended(outcome)
            &&& after == before.acted(from, outcome)
        },
        Step::Left(id) => {
            &&& before.connections.contains_key(id)
            &&& parse(before.buffers[id]) is None
            &&& ended(outcome)
            &&& after == before.acted(id, outcome)
        },
        Step::Wrote(_, _) => false,
        Step::Rested => after == before,
    }
}

/// The steps lead from each state to the next.
pub open spec fn chained<S, E>(
    states: Seq<Tasks<S>>,
    steps: Seq<Step>,
    outcomes: Seq<Result<usize, E>>,
) -> bool {
    &&& states.len() == steps.len() + 1
    &&& outcomes.len() == steps.len()
    &&& forall|i: int|
        0 <= i < steps.len() ==> follows(states[i], #[trigger] steps[i], outcomes[i], states[i + 1])
}

/// What was handed out for the client `id`, if it is connected, is its ID and then what
/// the messages for it carried. What was taken off it, followed by what waits, is what it
/// sent.
pub open spec fn forwarded<S>(steps: Seq<Step>, end: Tasks<S>, id: u32) -> bool {
    &&& connected(steps, id) == end.connections.contains_key(id)
    &&& connected(steps, id) ==> {
        &&& end.handed[id] == network_bytes(id) + mail(steps, id).flatten()
        &&& taken(steps, id) + messages(end.buffers[id]) == messages(received(steps, id))
        &&& leftover(end.buffers[id]) == leftover(received(steps, id))
    }
}

proof fn lemma_follows<S, E>(
    before: Tasks<S>,
    step: Step,
    outcome: Result<usize, E>,
    after: Tasks<S>,
)
    requires
        before.paired(),
        follows(before, step, outcome, after),
    ensures
        after.paired(),
        network_follows(before.network(), step, after.network()),
{
    assert(forall|id: u32| #[trigger]
        before.connections.contains_key(id) == before.buffers.contains_key(id));
    assert(forall|id: u32| #[trigger]
        before.connections.contains_key(id) == before.handed.contains_key(id));
    match step {
        Step::Took(from, None) => {
            assert(after =~= before);
        },
        Step::Took(from, Some((dest, payload))) => {
            assert(before.connections.contains_key(dest) == before.handed.contains_key(dest));
        },
        _ => {},
    }
    assert(after.buffers.dom() =~= after.connections.dom());
    assert(after.handed.dom() =~= after.connections.dom());
}

proof fn lemma_paired<S, E>(
    states: Seq<Tasks<S>>,
    steps: Seq<Step>,
    outcomes: Seq<Result<usize, E>>,
    i: int,
)
    requires
        chained(states, steps, outcomes),
        states[0] == Tasks::<S>::none(),
        0 <= i < states.len(),
    ensures
        states[i].paired(),
    decreases i,
{
    if i == 0 {
        assert(states[0].buffers.dom() =~= states[0].connections.dom());
        assert(states[0].handed.dom() =~= states[0].connections.dom());
    } else {
        lemma_paired(states, steps, outcomes, i - 1);
        assert(follows(states[i - 1], steps[i - 1], outcomes[i - 1], states[i]));
        lemma_follows(states[i - 1], steps[i - 1], outcomes[i - 1], states[i]);
    }
}

/// Over any run, with any number of clients under IDs that do not overlap, in whatever
/// order they join, send and leave and their tasks serve them, and whatever comes of the
/// reads: what is written to a client is first its ID in network order, and then what
/// exactly the messages for it carried, whole and in the order in which they were taken.
/// What was taken off a client, followed by what waits in its buffer, is exactly the
/// messages that it sent, in order.
pub proof fn law_whole_run<S, E>(
    states: Seq<Tasks<S>>,
    steps: Seq<Step>,
    outcomes: Seq<Result<usize, E>>,
)
    requires
        chained(states, steps, outcomes),
        states[0] == Tasks::<S>::none(),
    ensures
        forall|id: u32| #[trigger] forwarded(steps, states.last(), id),
{
    let networks = states.map_values(|state: Tasks<S>| state.network());
    assert(network_chained(networks, steps)) by {
        assert forall|i: int| 0 <= i < steps.len() implies network_follows(
            networks[i],
            #[trigger] steps[i],
            networks[i + 1],
        ) by {
            lemma_paired(states, steps, outcomes, i);
            lemma_follows(states[i], steps[i], outcomes[i], states[i + 1]);
        }
    }
    assert(networks[0] =~= Network::empty());
    network_run(networks, steps);
    let end = states.last();
    assert(networks.last() == end.network());
    lemma_paired(states, steps, outcomes, steps.len() as int);
    assert forall|id: u32| #[trigger] forwarded(steps, end, id) by {
        assert(accounted(steps, end.network(), id));
        assert(end.buffers.contains_key(id) == end.connections.contains_key(id));
        lemma_none_written(steps, id);
        assert(written(steps, id) + end.handed[id] =~= end.handed[id]);
    }
}

} // verus!
