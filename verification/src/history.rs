//! What a server comes to over a whole run, whichever way it is run: what its clients
//! sent, and what they were sent.

use crate::message::{leftover, messages, parse};
use crate::message::{law_one_at_a_time, law_pieces_keep_messages};
use crate::wire::network_bytes;
use vstd::prelude::*;

verus! {

/// What can happen in a run.
pub enum Step {
    /// A client joined under this ID.
    Joined(u32),
    /// The client with this ID sent these bytes.
    Received(u32, Seq<u8>),
    /// The bytes that the client with this ID sent were looked at, and this message
    /// was taken off them: its destination, and the bytes for it.
    Took(u32, Option<(u32, Seq<u8>)>),
    /// These bytes were written to the client with this ID.
    Wrote(u32, Seq<u8>),
    /// The client with this ID is gone.
    Left(u32),
    /// Nothing that a client could notice.
    Rested,
}

/// The connected clients, by ID.
#[verifier::ext_equal]
pub struct Network {
    /// What each sent and no message was made of yet.
    pub incoming: Map<u32, Seq<u8>>,
    /// What is still to be written to each.
    pub pending: Map<u32, Seq<u8>>,
}

impl Network {
    pub open spec fn empty() -> Network {
        Network { incoming: Map::empty(), pending: Map::empty() }
    }
}

/// The message that `stream` starts with, if it is whole.
pub open spec fn first_message(stream: Seq<u8>) -> Option<(u32, Seq<u8>)> {
    match parse(stream) {
        Some((dest, payload, _)) => Some((dest, payload)),
        None => None,
    }
}

/// `step` makes `after` of `before`.
pub open spec fn follows(before: Network, step: Step, after: Network) -> bool {
    match step {
        Step::Joined(id) => {
            &&& after.incoming == before.incoming.insert(id, seq![])
            &&& after.pending == before.pending.insert(id, network_bytes(id))
        },
        Step::Received(id, bytes) => {
            &&& before.incoming.contains_key(id)
            &&& after.incoming == before.incoming.insert(id, before.incoming[id] + bytes)
            &&& after.pending == before.pending
        },
        Step::Took(from, message) => {
            &&& before.incoming.contains_key(from)
            &&& message == first_message(before.incoming[from])
            &&& match parse(before.incoming[from]) {
                Some((dest, payload, rest)) => {
                    &&& after.incoming == before.incoming.insert(from, rest)
                    &&& after.pending == if before.pending.contains_key(dest) {
                        before.pending.insert(dest, before.pending[dest] + payload)
                    } else {
                        before.pending
                    }
                },
                None => after == before,
            }
        },
        Step::Wrote(id, bytes) => {
            &&& before.pending.contains_key(id)
            &&& bytes.is_prefix_of(before.pending[id])
            &&& after.incoming == before.incoming
            &&& after.pending == before.pending.insert(
                id,
                before.pending[id].skip(bytes.len() as int),
            )
        },
        Step::Left(id) => {
            &&& after.incoming == before.incoming.remove(id)
            &&& after.pending == before.pending.remove(id)
        },
        Step::Rested => after == before,
    }
}

/// The steps lead from each state to the next.
pub open spec fn chained(states: Seq<Network>, steps: Seq<Step>) -> bool {
    &&& states.len() == steps.len() + 1
    &&& forall|i: int|
        0 <= i < steps.len() ==> follows(states[i], #[trigger] steps[i], states[i + 1])
}

/// The client `id` is connected after the steps.
pub open spec fn connected(steps: Seq<Step>, id: u32) -> bool
    decreases steps.len(),
{
    if steps.len() == 0 {
        false
    } else if steps.last() == Step::Joined(id) {
        true
    } else if steps.last() == Step::Left(id) {
        false
    } else {
        connected(steps.drop_last(), id)
    }
}

/// What the client `id` sent since it joined.
pub open spec fn received(steps: Seq<Step>, id: u32) -> Seq<u8>
    decreases steps.len(),
{
    if steps.len() == 0 {
        seq![]
    } else {
        let before = received(steps.drop_last(), id);
        match steps.last() {
            Step::Joined(other) if other == id => seq![],
            Step::Received(other, bytes) if other == id => before + bytes,
            _ => before,
        }
    }
}

/// The messages that were made of what the client `id` sent since it joined.
pub open spec fn taken(steps: Seq<Step>, id: u32) -> Seq<(u32, Seq<u8>)>
    decreases steps.len(),
{
    if steps.len() == 0 {
        seq![]
    } else {
        let before = taken(steps.drop_last(), id);
        match steps.last() {
            Step::Joined(other) if other == id => seq![],
            Step::Took(from, Some(message)) if from == id => before.push(message),
            _ => before,
        }
    }
}

/// What each message carried that was taken off anyone for the client `id` since it
/// joined.
pub open spec fn mail(steps: Seq<Step>, id: u32) -> Seq<Seq<u8>>
    decreases steps.len(),
{
    if steps.len() == 0 {
        seq![]
    } else {
        let before = mail(steps.drop_last(), id);
        match steps.last() {
            Step::Joined(other) if other == id => seq![],
            Step::Took(_, Some((dest, payload))) if dest == id => before.push(payload),
            _ => before,
        }
    }
}

/// What was written to the client `id` since it joined.
pub open spec fn written(steps: Seq<Step>, id: u32) -> Seq<u8>
    decreases steps.len(),
{
    if steps.len() == 0 {
        seq![]
    } else {
        let before = written(steps.drop_last(), id);
        match steps.last() {
            Step::Joined(other) if other == id => seq![],
            Step::Wrote(other, bytes) if other == id => before + bytes,
            _ => before,
        }
    }
}

/// What was written to the client `id`, followed by what still waits, is its ID
/// followed by what the messages for it carried.
pub open spec fn all_sent(steps: Seq<Step>, end: Network, id: u32) -> bool {
    written(steps, id) + end.pending[id] == network_bytes(id) + mail(steps, id).flatten()
}

/// The messages that were made of what the client `id` sent, followed by those that
/// still wait in what is left, are the messages that it sent.
pub open spec fn all_taken(steps: Seq<Step>, end: Network, id: u32) -> bool {
    &&& taken(steps, id) + messages(end.incoming[id]) == messages(received(steps, id))
    &&& leftover(end.incoming[id]) == leftover(received(steps, id))
}

/// What the steps say of the client `id` is what `end` holds of it.
pub open spec fn accounted(steps: Seq<Step>, end: Network, id: u32) -> bool {
    &&& end.incoming.contains_key(id) == connected(steps, id)
    &&& end.pending.contains_key(id) == connected(steps, id)
    &&& connected(steps, id) ==> all_sent(steps, end, id) && all_taken(steps, end, id)
}

proof fn lemma_sent_step(steps: Seq<Step>, before: Network, after: Network, id: u32)
    requires
        steps.len() > 0,
        accounted(steps.drop_last(), before, id),
        follows(before, steps.last(), after),
        connected(steps, id),
    ensures
        all_sent(steps, after, id),
{
    let past = steps.drop_last();
    match steps.last() {
        Step::Joined(other) if other == id => {
            assert(mail(steps, id).flatten() =~= seq![]);
            assert(seq![] + network_bytes(id) =~= network_bytes(id) + seq![]);
        },
        Step::Took(_, Some((dest, payload))) if dest == id => {
            mail(past, id).lemma_flatten_push(payload);
            assert(written(steps, id) + (before.pending[id] + payload) =~= (written(steps, id)
                + before.pending[id]) + payload);
            assert(network_bytes(id) + (mail(past, id).flatten() + payload) =~= (network_bytes(id)
                + mail(past, id).flatten()) + payload);
        },
        Step::Wrote(other, bytes) if other == id => {
            assert(before.pending[id] =~= bytes + after.pending[id]);
            assert((written(past, id) + bytes) + after.pending[id] =~= written(past, id) + (bytes
                + after.pending[id]));
        },
        _ => {},
    }
}

proof fn lemma_taken_step(steps: Seq<Step>, before: Network, after: Network, id: u32)
    requires
        steps.len() > 0,
        accounted(steps.drop_last(), before, id),
        follows(before, steps.last(), after),
        connected(steps, id),
    ensures
        all_taken(steps, after, id),
{
    let past = steps.drop_last();
    match steps.last() {
        Step::Joined(other) if other == id => {
            assert(taken(steps, id) + messages(seq![]) =~= messages(seq![]));
        },
        Step::Received(other, bytes) if other == id => {
            let held = before.incoming[id];
            law_pieces_keep_messages(held, bytes);
            law_pieces_keep_messages(received(past, id), bytes);
            assert(taken(past, id) + (messages(held) + messages(leftover(held) + bytes)) =~= (taken(
                past,
                id,
            ) + messages(held)) + messages(leftover(held) + bytes));
        },
        Step::Took(from, Some(message)) if from == id => {
            law_one_at_a_time(before.incoming[id]);
            assert(taken(past, id).push(message) + messages(after.incoming[id]) =~= taken(past, id)
                + messages(before.incoming[id]));
        },
        _ => {},
    }
}

proof fn lemma_accounted(states: Seq<Network>, steps: Seq<Step>, id: u32)
    requires
        chained(states, steps),
        states[0] == Network::empty(),
    ensures
        accounted(steps, states.last(), id),
    decreases steps.len(),
{
    if steps.len() > 0 {
        let past = steps.drop_last();
        let earlier = states.drop_last();
        assert(chained(earlier, past)) by {
            assert forall|i: int| 0 <= i < past.len() implies follows(
                earlier[i],
                #[trigger] past[i],
                earlier[i + 1],
            ) by {
                assert(past[i] == steps[i]);
            }
        }
        lemma_accounted(earlier, past, id);
        let n = steps.len() - 1;
        assert(follows(states[n], steps[n], states[n + 1]));
        if connected(steps, id) {
            lemma_sent_step(steps, earlier.last(), states.last(), id);
            lemma_taken_step(steps, earlier.last(), states.last(), id);
        }
    }
}

/// Over any run that starts with nobody connected, with any number of clients, in
/// whatever order they join, send, are served, are written to and leave, and however
/// little is written at a time: what was written to a client, followed by what waits,
/// is its ID in network order, followed by what exactly the messages carried that were
/// taken for it, whole and in the order in which they were taken. And what was taken
/// off a client, followed by what waits, is exactly the messages that it sent, in
/// order.
pub proof fn law_whole_run(states: Seq<Network>, steps: Seq<Step>)
    requires
        chained(states, steps),
        states[0] == Network::empty(),
    ensures
        forall|id: u32| #[trigger] accounted(steps, states.last(), id),
{
    assert forall|id: u32| #[trigger] accounted(steps, states.last(), id) by {
        lemma_accounted(states, steps, id);
    }
}

/// Where no step writes, nothing was written.
pub proof fn lemma_none_written(steps: Seq<Step>, id: u32)
    requires
        forall|i: int| 0 <= i < steps.len() ==> !((#[trigger] steps[i]) is Wrote),
    ensures
        written(steps, id) == Seq::<u8>::empty(),
    decreases steps.len(),
{
    if steps.len() > 0 {
        let past = steps.drop_last();
        assert forall|i: int| 0 <= i < past.len() implies !((#[trigger] past[i]) is Wrote) by {
            assert(past[i] == steps[i]);
        }
        lemma_none_written(past, id);
        assert(!(steps[steps.len() - 1] is Wrote));
    }
}

/// Nothing but bytes coming in and bytes going out.
pub open spec fn racing(step: Step) -> bool {
    step is Received || step is Wrote || step is Rested
}

/// What came of racing for the client `id`: what it sent joined what it had sent, and
/// what was written, followed by what waits, is what waited at first.
pub open spec fn kept(steps: Seq<Step>, start: Network, end: Network, id: u32) -> bool {
    &&& end.incoming.contains_key(id) == start.incoming.contains_key(id)
    &&& end.pending.contains_key(id) == start.pending.contains_key(id)
    &&& start.incoming.contains_key(id) ==> end.incoming[id] == start.incoming[id] + received(
        steps,
        id,
    )
    &&& start.pending.contains_key(id) ==> written(steps, id) + end.pending[id]
        == start.pending[id]
}

proof fn lemma_kept(states: Seq<Network>, steps: Seq<Step>, id: u32)
    requires
        chained(states, steps),
        forall|i: int| 0 <= i < steps.len() ==> racing(#[trigger] steps[i]),
    ensures
        kept(steps, states[0], states.last(), id),
    decreases steps.len(),
{
    if steps.len() == 0 {
        assert(states[0].incoming[id] + received(steps, id) =~= states[0].incoming[id]);
        assert(written(steps, id) + states[0].pending[id] =~= states[0].pending[id]);
    } else {
        let past = steps.drop_last();
        let earlier = states.drop_last();
        assert forall|i: int| 0 <= i < past.len() implies racing(#[trigger] past[i]) && follows(
            earlier[i],
            past[i],
            earlier[i + 1],
        ) by {
            assert(past[i] == steps[i]);
        }
        lemma_kept(earlier, past, id);
        let n = steps.len() - 1;
        let before = states[n];
        let after = states[n + 1];
        assert(follows(before, steps[n], after));
        assert(racing(steps[n]));
        match steps[n] {
            Step::Received(other, bytes) if other == id => {
                assert((states[0].incoming[id] + received(past, id)) + bytes
                    =~= states[0].incoming[id] + (received(past, id) + bytes));
            },
            Step::Wrote(other, bytes) if other == id => {
                assert(before.pending[id] =~= bytes + after.pending[id]);
                assert((written(past, id) + bytes) + after.pending[id] =~= written(past, id) + (
                bytes + after.pending[id]));
            },
            _ => {},
        }
    }
}

/// While nothing happens but bytes coming in and going out, however often that is given
/// up halfway and taken up again, no byte is lost: each client's incoming bytes grow by
/// what was read, and what was written to it, followed by what waits, is what waited at
/// first.
pub proof fn law_racing_loses_nothing(states: Seq<Network>, steps: Seq<Step>)
    requires
        chained(states, steps),
        forall|i: int| 0 <= i < steps.len() ==> racing(#[trigger] steps[i]),
    ensures
        forall|id: u32| #[trigger] kept(steps, states[0], states.last(), id),
{
    assert forall|id: u32| #[trigger] kept(steps, states[0], states.last(), id) by {
        lemma_kept(states, steps, id);
    }
}

} // verus!
