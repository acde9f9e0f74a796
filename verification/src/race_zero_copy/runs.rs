//! What a server comes to over a whole run.

use super::{ReadSocketView, ServerView, WriteSocketView};
use crate::history::{accounted, first_message, kept, racing, Network, Step};
use crate::history::{chained as network_chained, follows as network_follows};
use crate::history::{law_racing_loses_nothing as network_racing, law_whole_run as network_run};
use crate::message::parse;
use crate::queue::law_push_appends;
use vstd::prelude::*;

verus! {

impl<R, W> ServerView<R, W> {
    /// What the clients sent and are owed.
    pub open spec fn network(self) -> Network {
        Network {
            incoming: self.readers.map_values(|socket: ReadSocketView<R>| socket.incoming),
            pending: self.writers.map_values(|socket: WriteSocketView<W>| socket.pending()),
        }
    }

    /// The clients once `bytes` were read into the buffer of `id`.
    pub open spec fn received(self, id: u32, bytes: Seq<u8>) -> Self {
        ServerView {
            readers: self.readers.insert(
                id,
                ReadSocketView {
                    incoming: self.readers[id].incoming + bytes,
                    ..self.readers[id]
                },
            ),
            ..self
        }
    }

    /// The clients once `socket` is what is written to for `id`.
    pub open spec fn with_writer(self, id: u32, socket: WriteSocketView<W>) -> Self {
        ServerView { writers: self.writers.insert(id, socket), ..self }
    }
}

/// `step` makes `after` of `before`: what the functions of a server, and whoever reads
/// into its buffers and writes them, do to it.
pub open spec fn follows<R, W>(
    before: ServerView<R, W>,
    step: Step,
    after: ServerView<R, W>,
) -> bool {
    match step {
        Step::Joined(id) => exists|reader: R, writer: W|
            after == #[trigger] before.joined(reader, writer, id),
        Step::Received(id, bytes) => {
            &&& before.readers.contains_key(id)
            &&& after == before.received(id, bytes)
        },
        Step::Took(from, message) => {
            &&& before.readers.contains_key(from)
            &&& message == first_message(before.readers[from].incoming)
            &&& after == before.delivered(from)
        },
        Step::Wrote(id, bytes) => {
            let socket = before.writers[id];
            &&& before.writers.contains_key(id)
            &&& socket.outgoing.len() > 0
            &&& bytes.is_prefix_of(socket.outgoing[0])
            &&& after == before.with_writer(id, socket.drained(bytes.len() as int))
        },
        Step::Left(id) => after == before.without(id),
        Step::Rested => after == before || exists|id: u32| #[trigger]
            took_off_empty(before, id, after),
    }
}

/// A buffer of `id` that was written to its end is taken off.
pub open spec fn took_off_empty<R, W>(
    before: ServerView<R, W>,
    id: u32,
    after: ServerView<R, W>,
) -> bool {
    &&& before.writers.contains_key(id)
    &&& before.writers[id].outgoing.len() > 0
    &&& before.writers[id].outgoing[0].len() == 0
    &&& after == before.with_writer(id, before.writers[id].popped())
}

/// The steps lead from each state to the next.
pub open spec fn chained<R, W>(states: Seq<ServerView<R, W>>, steps: Seq<Step>) -> bool {
    &&& states.len() == steps.len() + 1
    &&& forall|i: int|
        0 <= i < steps.len() ==> follows(states[i], #[trigger] steps[i], states[i + 1])
}

proof fn lemma_drained<W>(socket: WriteSocketView<W>, bytes: Seq<u8>)
    requires
        socket.outgoing.len() > 0,
        bytes.is_prefix_of(socket.outgoing[0]),
    ensures
        bytes.is_prefix_of(socket.pending()),
        socket.drained(bytes.len() as int).pending() == socket.pending().skip(bytes.len() as int),
{
    let n = bytes.len() as int;
    super::law_writes_in_order(socket, n);
    assert(bytes =~= socket.outgoing[0].take(n));
    assert(socket.pending() == socket.outgoing[0] + socket.outgoing.drop_first().flatten());
    assert(bytes =~= socket.pending().take(n));
    assert(bytes.is_prefix_of(socket.pending()));
}

proof fn lemma_follows<R, W>(before: ServerView<R, W>, step: Step, after: ServerView<R, W>)
    requires
        follows(before, step, after),
    ensures
        network_follows(before.network(), step, after.network()),
{
    let old_network = before.network();
    let new_network = after.network();
    match step {
        Step::Joined(id) => {
            let (reader, writer) = choose|reader: R, writer: W|
                after == #[trigger] before.joined(reader, writer, id);
            super::law_greeted_first(before, reader, writer, id);
            assert(new_network.incoming =~= old_network.incoming.insert(id, seq![]));
            assert(new_network.pending =~= old_network.pending.insert(
                id,
                after.writers[id].pending(),
            ));
        },
        Step::Received(id, bytes) => {
            assert(new_network.incoming =~= old_network.incoming.insert(
                id,
                old_network.incoming[id] + bytes,
            ));
        },
        Step::Took(from, _) => {
            match parse(before.readers[from].incoming) {
                Some((dest, payload, rest)) => {
                    assert(new_network.incoming =~= old_network.incoming.insert(from, rest));
                    if before.writers.contains_key(dest) {
                        law_push_appends(before.writers[dest].outgoing, payload);
                        assert(new_network.pending =~= old_network.pending.insert(
                            dest,
                            old_network.pending[dest] + payload,
                        ));
                    }
                },
                None => {},
            }
        },
        Step::Wrote(id, bytes) => {
            lemma_drained(before.writers[id], bytes);
            assert(new_network.pending =~= old_network.pending.insert(
                id,
                old_network.pending[id].skip(bytes.len() as int),
            ));
        },
        Step::Left(id) => {
            assert(new_network.incoming =~= old_network.incoming.remove(id));
            assert(new_network.pending =~= old_network.pending.remove(id));
        },
        Step::Rested => {
            if after != before {
                let id = choose|id: u32| #[trigger] took_off_empty(before, id, after);
                let socket = before.writers[id];
                assert(socket.pending() == socket.outgoing[0] + socket.popped().pending());
                assert(socket.pending() =~= socket.popped().pending());
                assert(new_network.pending =~= old_network.pending);
                assert(new_network =~= old_network);
            }
        },
    }
}

spec fn networks<R, W>(states: Seq<ServerView<R, W>>) -> Seq<Network> {
    states.map_values(|state: ServerView<R, W>| state.network())
}

proof fn lemma_chained<R, W>(states: Seq<ServerView<R, W>>, steps: Seq<Step>)
    requires
        chained(states, steps),
    ensures
        network_chained(networks(states), steps),
        networks(states)[0] == states[0].network(),
        networks(states).last() == states.last().network(),
{
    assert forall|i: int| 0 <= i < steps.len() implies network_follows(
        networks(states)[i],
        #[trigger] steps[i],
        networks(states)[i + 1],
    ) by {
        lemma_follows(states[i], steps[i], states[i + 1]);
    }
}

/// Over any run of a server, with any number of clients, in whatever order they join,
/// send, are served, are written to and leave, and however little is written at a time:
/// what was written to a client, followed by what waits, is its ID in network order,
/// followed by what exactly the messages carried that were delivered for it, whole and
/// in that order. And what was delivered of a client, followed by what waits, is exactly
/// the messages that it sent, in order.
pub proof fn law_whole_run<R, W>(states: Seq<ServerView<R, W>>, steps: Seq<Step>)
    requires
        chained(states, steps),
        states[0] == (ServerView::<R, W> { readers: Map::empty(), writers: Map::empty() }),
    ensures
        forall|id: u32| #[trigger] accounted(steps, states.last().network(), id),
{
    lemma_chained(states, steps);
    assert(states[0].network() =~= Network::empty());
    network_run(networks(states), steps);
}

/// However many races are run, and however often a read or a write is given up because
/// it lost, no byte is lost: what was read joined the reader's buffer, and what was
/// written, followed by the writer's buffers, is what the buffers held at first.
pub proof fn law_racing_loses_nothing<R, W>(states: Seq<ServerView<R, W>>, steps: Seq<Step>)
    requires
        chained(states, steps),
        forall|i: int| 0 <= i < steps.len() ==> racing(#[trigger] steps[i]),
    ensures
        forall|id: u32| #[trigger] kept(steps, states[0].network(), states.last().network(), id),
{
    lemma_chained(states, steps);
    network_racing(networks(states), steps);
}

/// What can happen to what is written to.
pub enum Change {
    /// These bytes were sent.
    Sent(Seq<u8>),
    /// So many bytes of the first buffer were written.
    Drained(int),
    /// The first buffer, written to its end, was taken off.
    Popped,
}

/// What there is to write for `change` to happen is there.
pub open spec fn allows<W>(socket: WriteSocketView<W>, change: Change) -> bool {
    match change {
        Change::Sent(_) => true,
        Change::Drained(n) => socket.outgoing.len() > 0 && 0 <= n <= socket.outgoing[0].len(),
        Change::Popped => socket.outgoing.len() > 0 && socket.outgoing[0].len() == 0,
    }
}

/// The socket once `change` happened.
pub open spec fn changed<W>(socket: WriteSocketView<W>, change: Change) -> WriteSocketView<W> {
    match change {
        Change::Sent(bytes) => socket.sent(bytes),
        Change::Drained(n) => socket.drained(n),
        Change::Popped => socket.popped(),
    }
}

/// The changes can happen to the socket, one after the other.
pub open spec fn allows_all<W>(socket: WriteSocketView<W>, changes: Seq<Change>) -> bool
    decreases changes.len(),
{
    changes.len() > 0 ==> {
        &&& allows(socket, changes[0])
        &&& allows_all(changed(socket, changes[0]), changes.drop_first())
    }
}

/// The socket once all changes happened.
pub open spec fn changed_by_all<W>(
    socket: WriteSocketView<W>,
    changes: Seq<Change>,
) -> WriteSocketView<W>
    decreases changes.len(),
{
    if changes.len() == 0 {
        socket
    } else {
        changed_by_all(changed(socket, changes[0]), changes.drop_first())
    }
}

/// All bytes that are sent, in order.
pub open spec fn input(changes: Seq<Change>) -> Seq<u8>
    decreases changes.len(),
{
    if changes.len() == 0 {
        seq![]
    } else {
        (match changes[0] {
            Change::Sent(bytes) => bytes,
            _ => seq![],
        }) + input(changes.drop_first())
    }
}

/// All bytes that are written, in order.
pub open spec fn output<W>(socket: WriteSocketView<W>, changes: Seq<Change>) -> Seq<u8>
    decreases changes.len(),
{
    if changes.len() == 0 {
        seq![]
    } else {
        (match changes[0] {
            Change::Drained(n) => socket.outgoing[0].take(n),
            _ => seq![],
        }) + output(changed(socket, changes[0]), changes.drop_first())
    }
}

/// What one change writes, followed by what waits then, is what waited before followed
/// by what the change sends.
proof fn lemma_changed<W>(socket: WriteSocketView<W>, change: Change)
    requires
        allows(socket, change),
    ensures
        ({
            let after = changed(socket, change).pending();
            match change {
                Change::Sent(bytes) => after == socket.pending() + bytes,
                Change::Drained(n) => socket.outgoing[0].take(n) + after == socket.pending(),
                Change::Popped => after == socket.pending(),
            }
        }),
{
    match change {
        Change::Sent(bytes) => {
            super::law_sent_last(socket, bytes);
        },
        Change::Drained(n) => {
            super::law_writes_in_order(socket, n);
            assert(socket.pending() == socket.outgoing[0] + socket.outgoing.drop_first().flatten());
            assert(socket.pending().take(n) + socket.pending().skip(n) =~= socket.pending());
        },
        Change::Popped => {
            assert(socket.pending() == socket.outgoing[0] + socket.popped().pending());
            assert(socket.pending() =~= socket.popped().pending());
        },
    }
}

/// However sending and writing alternate, however little is written at a time, and
/// however often a write is given up halfway: what was written, followed by what still
/// waits, is what waited at first followed by what was sent.
pub proof fn law_all_written_in_order<W>(socket: WriteSocketView<W>, changes: Seq<Change>)
    requires
        allows_all(socket, changes),
    ensures
        output(socket, changes) + changed_by_all(socket, changes).pending() == socket.pending()
            + input(changes),
    decreases changes.len(),
{
    if changes.len() == 0 {
        assert(output(socket, changes) + socket.pending() =~= socket.pending() + input(changes));
    } else {
        let next = changed(socket, changes[0]);
        let later = changes.drop_first();
        let end = changed_by_all(next, later).pending();
        lemma_changed(socket, changes[0]);
        law_all_written_in_order(next, later);
        match changes[0] {
            Change::Sent(bytes) => {
                assert(output(socket, changes) =~= output(next, later));
                assert(socket.pending() + input(changes) =~= next.pending() + input(later));
            },
            Change::Drained(n) => {
                let first = socket.outgoing[0].take(n);
                assert(input(changes) =~= input(later));
                assert((first + output(next, later)) + end =~= first + (output(next, later) + end));
                assert((first + next.pending()) + input(later) =~= first + (next.pending() + input(
                    later,
                )));
            },
            Change::Popped => {
                assert(output(socket, changes) =~= output(next, later));
                assert(input(changes) =~= input(later));
            },
        }
    }
}

} // verus!
