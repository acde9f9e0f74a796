//! What the writing tasks come to over a whole run.

use super::{dispatched, stepped, ClientAction, ClientEvent, DispatchActionView, MessageView};
use super::{replied, ReplyView};
use crate::buffers::{content, contents};
use crate::history::{first_message, Step};
use crate::message::parse;
use crate::naive::runs::{follows as table_follows, law_whole_run as table_run};
use crate::naive::runs::{forwarded, Tasks};
use crate::poll::ended;
use crate::wire::network_bytes;
use bytes::Bytes;
use vstd::prelude::*;

verus! {

/// Who is connected once the dispatcher was told `told`. Where a client is new,
/// the writing task at the same place of `tasks` was started for it.
pub open spec fn connections_after<T, H, W>(told: Seq<MessageView<W>>, tasks: Seq<(T, H)>) -> Map<
    u32,
    (T, H),
>
    decreases told.len(),
{
    if told.len() == 0 {
        Map::empty()
    } else {
        let before = connections_after(told.drop_last(), tasks.drop_last());
        let (action, after) = dispatched(before, Some(told.last()));
        match action {
            DispatchActionView::Spawn(id, _, _) => after.insert(id, tasks.last()),
            _ => after,
        }
    }
}

/// What the dispatcher hands to the writing task that was started last for the client
/// `id`.
pub open spec fn handed<T, H, W>(
    told: Seq<MessageView<W>>,
    tasks: Seq<(T, H)>,
    id: u32,
) -> Seq<Seq<u8>>
    decreases told.len(),
{
    if told.len() == 0 {
        seq![]
    } else {
        let before = handed(told.drop_last(), tasks.drop_last(), id);
        let connections = connections_after(told.drop_last(), tasks.drop_last());
        match dispatched(connections, Some(told.last())).0 {
            DispatchActionView::Spawn(other, _, bytes) if other == id => seq![bytes],
            DispatchActionView::Forward(other, bytes) if other == id => before.push(bytes),
            _ => before,
        }
    }
}

/// A client was new under this ID.
pub open spec fn announced<W>(told: Seq<MessageView<W>>, id: u32) -> bool
    decreases told.len(),
{
    told.len() > 0 && ((told.last() matches MessageView::New(other, _) && other == id) || announced(
        told.drop_last(),
        id,
    ))
}

/// The client was new and is not gone since.
pub open spec fn live<W>(told: Seq<MessageView<W>>, id: u32) -> bool
    decreases told.len(),
{
    if told.len() == 0 {
        false
    } else {
        match told.last() {
            MessageView::New(other, _) if other == id => true,
            MessageView::Disconnect(other) if other == id => false,
            _ => live(told.drop_last(), id),
        }
    }
}

/// The bytes that came for the client since it was new and before it was gone.
pub open spec fn mail<W>(told: Seq<MessageView<W>>, id: u32) -> Seq<Seq<u8>>
    decreases told.len(),
{
    if told.len() == 0 {
        seq![]
    } else {
        let past = told.drop_last();
        match told.last() {
            MessageView::New(other, _) if other == id => seq![],
            MessageView::Send(other, bytes) if other == id && live(past, id) => mail(
                past,
                id,
            ).push(bytes),
            _ => mail(past, id),
        }
    }
}

/// The writing task that was started last for the client `id`.
pub open spec fn task<T, H, W>(
    told: Seq<MessageView<W>>,
    tasks: Seq<(T, H)>,
    id: u32,
) -> (T, H)
    recommends
        announced(told, id),
    decreases told.len(),
{
    if told.len() == 0 {
        arbitrary()
    } else {
        match told.last() {
            MessageView::New(other, _) if other == id => tasks.last(),
            _ => task(told.drop_last(), tasks.drop_last(), id),
        }
    }
}

/// Whatever the dispatcher is told, in whatever order: the writing task of a client is
/// handed the client's ID in network order, and then exactly what came for the client
/// since it was new and before it was gone, in order. The dispatcher knows that task as
/// long as the client is not gone, and no longer.
pub proof fn law_handed_in_order<T, H, W>(
    told: Seq<MessageView<W>>,
    tasks: Seq<(T, H)>,
    id: u32,
)
    requires
        tasks.len() == told.len(),
    ensures
        connections_after(told, tasks).contains_key(id) == live(told, id),
        live(told, id) ==> connections_after(told, tasks)[id] == task(told, tasks, id),
        live(told, id) ==> announced(told, id),
        announced(told, id) ==> handed(told, tasks, id) == seq![network_bytes(id)] + mail(told, id),
    decreases told.len(),
{
    if told.len() > 0 {
        let past = told.drop_last();
        law_handed_in_order(past, tasks.drop_last(), id);
        match told.last() {
            MessageView::New(other, _) if other == id => {
                assert(seq![network_bytes(id)] + mail(told, id) =~= seq![network_bytes(id)]);
            },
            MessageView::Send(other, bytes) if other == id && live(past, id) => {
                assert((seq![network_bytes(id)] + mail(past, id)).push(bytes) =~= seq![
                    network_bytes(id),
                ] + mail(past, id).push(bytes));
            },
            _ => {},
        }
    }
}

/// The event answers what a writing task does.
pub open spec fn answers<E>(action: ClientAction<E>, event: ClientEvent<E>) -> bool {
    match action {
        ClientAction::Receive => event is Received,
        ClientAction::WriteAll(_) => event is Wrote,
        ClientAction::Stop(_) => false,
    }
}

/// What happens to a writing task, from its beginning: each event answers what the task
/// did before.
pub open spec fn task_run<E>(events: Seq<ClientEvent<E>>) -> bool
    decreases events.len(),
{
    if events.len() <= 1 {
        events.len() == 1 && events[0] is Begin
    } else {
        let past = events.drop_last();
        task_run(past) && answers(stepped(past.last()), events.last())
    }
}

/// What came through the channel.
pub open spec fn received<E>(events: Seq<ClientEvent<E>>) -> Seq<Bytes>
    decreases events.len(),
{
    if events.len() == 0 {
        seq![]
    } else {
        match events.last() {
            ClientEvent::Received(bytes) => received(events.drop_last()).push(bytes),
            _ => received(events.drop_last()),
        }
    }
}

/// What was written to its end.
pub open spec fn completed<E>(events: Seq<ClientEvent<E>>) -> Seq<Bytes>
    decreases events.len(),
{
    if events.len() == 0 {
        seq![]
    } else {
        let past = events.drop_last();
        match events.last() {
            ClientEvent::Wrote(Ok(_)) => match stepped(past.last()) {
                ClientAction::WriteAll(bytes) => completed(past).push(bytes),
                _ => completed(past),
            },
            _ => completed(past),
        }
    }
}

/// The task was handed bytes that are not written to their end: it writes them, or it
/// failed to.
pub open spec fn underway<E>(events: Seq<ClientEvent<E>>) -> bool {
    match events.last() {
        ClientEvent::Begin => false,
        ClientEvent::Received(_) => true,
        ClientEvent::Wrote(outcome) => outcome is Err,
    }
}

proof fn lemma_task_run<E>(events: Seq<ClientEvent<E>>)
    requires
        task_run(events),
    ensures
        received(events) == if underway(events) {
            completed(events).push(received(events).last())
        } else {
            completed(events)
        },
        events.last() matches ClientEvent::Received(bytes) ==> received(events).last() == bytes,
    decreases events.len(),
{
    if events.len() > 1 {
        let past = events.drop_last();
        lemma_task_run(past);
    } else {
        let none = events.drop_last();
        assert(received(none) =~= seq![]);
        assert(completed(none) =~= seq![]);
        assert(received(events) =~= completed(events));
    }
}

/// A writing task writes what it is handed, in order, and everything before the next
/// thing: at every moment, what was written, of which the last may be cut short, is a
/// prefix of what the task was handed, and it is all of it unless the task is at the last
/// of it or failed there.
pub proof fn law_written_in_order<E>(events: Seq<ClientEvent<E>>, partly: Seq<u8>)
    requires
        task_run(events),
        if underway(events) {
            partly.is_prefix_of(content(received(events).last()))
        } else {
            partly == Seq::<u8>::empty()
        },
    ensures
        (contents(completed(events)).flatten() + partly).is_prefix_of(
            contents(received(events)).flatten(),
        ),
        !underway(events) ==> completed(events) == received(events),
        underway(events) ==> completed(events) == received(events).drop_last(),
{
    lemma_task_run(events);
    let done = contents(completed(events));
    let all = contents(received(events));
    if underway(events) {
        let last = content(received(events).last());
        assert(received(events).drop_last() =~= completed(events));
        assert(all =~= done.push(last));
        done.lemma_flatten_push(last);
        let written = done.flatten() + partly;
        assert(written =~= (done.flatten() + last).take(written.len() as int));
        assert(written.is_prefix_of(all.flatten()));
    } else {
        assert(done.flatten() + partly =~= all.flatten());
        assert((done.flatten() + partly).is_prefix_of(all.flatten()));
    }
}

/// The clients once the dispatcher did what it is to do with `message`, where `task` is
/// the writing task that it starts if the client is new.
pub open spec fn told_of<T, H, W>(
    before: Tasks<(T, H)>,
    message: MessageView<W>,
    task: (T, H),
) -> Tasks<(T, H)> {
    let (action, connections) = dispatched(before.connections, Some(message));
    match action {
        DispatchActionView::Spawn(id, _, bytes) => Tasks {
            connections: connections.insert(id, task),
            handed: before.handed.insert(id, bytes),
            ..before
        },
        DispatchActionView::Forward(id, bytes) => Tasks {
            connections,
            handed: before.handed.insert(id, before.handed[id] + bytes),
            ..before
        },
        _ => Tasks { connections, ..before },
    }
}

/// The clients once one joined: it is read from, and the dispatcher was told.
pub open spec fn joined<T, H, W>(
    before: Tasks<(T, H)>,
    id: u32,
    writer: W,
    task: (T, H),
) -> Tasks<(T, H)> {
    Tasks {
        buffers: before.buffers.insert(id, seq![]),
        ..told_of(before, MessageView::New(id, writer), task)
    }
}

/// The clients once the reading task of `from` did what it is to do after a read that
/// gave `outcome`, and the dispatcher what it is to do with what it was told.
pub open spec fn acted<T, H, W, E>(
    before: Tasks<(T, H)>,
    from: u32,
    outcome: Result<usize, E>,
    task: (T, H),
) -> Tasks<(T, H)> {
    let (reply, left) = replied::<W, E>(from, before.buffers[from], outcome);
    match reply {
        ReplyView::Read => Tasks { buffers: before.buffers.insert(from, left), ..before },
        ReplyView::Tell(message) => Tasks {
            buffers: before.buffers.insert(from, left),
            ..told_of(before, message, task)
        },
        ReplyView::Stop(message) => {
            let after = told_of(before, message, task);
            Tasks {
                connections: after.connections,
                buffers: after.buffers.remove(from),
                handed: after.handed.remove(from),
            }
        },
    }
}

/// `step` makes `after` of `before`, where the reads gave `outcome`. No ID is given twice
/// at a time. The dispatcher is told of everything through one channel, so that it acts
/// in the order in which it is told.
pub open spec fn follows<T, H, W, E>(
    before: Tasks<(T, H)>,
    step: Step,
    writer: W,
    task: (T, H),
    outcome: Result<usize, E>,
    after: Tasks<(T, H)>,
) -> bool {
    match step {
        Step::Joined(id) => {
            &&& !before.connections.contains_key(id)
            &&& after == joined(before, id, writer, task)
        },
        Step::Received(id, bytes) => {
            &&& before.connections.contains_key(id)
            &&& after == before.received(id, bytes)
        },
        Step::Took(from, message) => {
            &&& before.connections.contains_key(from)
            &&& message == first_message(before.buffers[from])
            &&& message is None ==> !ended(outcome)
            &&& after == acted::<T, H, W, E>(before, from, outcome, task)
        },
        Step::Left(id) => {
            &&& before.connections.contains_key(id)
            &&& parse(before.buffers[id]) is None
            &&& ended(outcome)
            &&& after == acted::<T, H, W, E>(before, id, outcome, task)
        },
        Step::Wrote(_, _) => false,
        Step::Rested => after == before,
    }
}

/// The steps lead from each state to the next.
pub open spec fn chained<T, H, W, E>(
    states: Seq<Tasks<(T, H)>>,
    steps: Seq<Step>,
    starts: Seq<(W, (T, H))>,
    outcomes: Seq<Result<usize, E>>,
) -> bool {
    &&& states.len() == steps.len() + 1
    &&& starts.len() == steps.len()
    &&& outcomes.len() == steps.len()
    &&& forall|i: int|
        0 <= i < steps.len() ==> follows(
            states[i],
            #[trigger] steps[i],
            starts[i].0,
            starts[i].1,
            outcomes[i],
            states[i + 1],
        )
}

/// The tasks and the dispatcher together do what one task per client would that has the
/// table at hand.
proof fn lemma_follows<T, H, W, E>(
    before: Tasks<(T, H)>,
    step: Step,
    writer: W,
    task: (T, H),
    outcome: Result<usize, E>,
    after: Tasks<(T, H)>,
)
    requires
        follows(before, step, writer, task, outcome, after),
    ensures
        table_follows(before, step, outcome, after),
{
    match step {
        Step::Joined(id) => {
            assert(after =~= before.joined(id, task));
        },
        Step::Took(from, _) => {
            assert(after =~= before.acted(from, outcome));
        },
        Step::Left(id) => {
            assert(after =~= before.acted(id, outcome));
        },
        _ => {},
    }
}

/// Over any run, with any number of clients under IDs that do not overlap, in whatever
/// order they join, send and leave and are served, and whatever comes of the reads: what
/// the writing task of a client is handed is first the client's ID in network order, and
/// then what exactly the messages for it carried, whole and in the order in which they
/// were taken. What was taken off a client, followed by what waits in its buffer, is
/// exactly the messages that it sent, in order.
pub proof fn law_whole_run<T, H, W, E>(
    states: Seq<Tasks<(T, H)>>,
    steps: Seq<Step>,
    starts: Seq<(W, (T, H))>,
    outcomes: Seq<Result<usize, E>>,
)
    requires
        chained(states, steps, starts, outcomes),
        states[0] == Tasks::<(T, H)>::none(),
    ensures
        forall|id: u32| #[trigger] forwarded(steps, states.last(), id),
{
    assert forall|i: int| 0 <= i < steps.len() implies table_follows(
        states[i],
        #[trigger] steps[i],
        outcomes[i],
        states[i + 1],
    ) by {
        lemma_follows(
            states[i],
            steps[i],
            starts[i].0,
            starts[i].1,
            outcomes[i],
            states[i + 1],
        );
    }
    table_run(states, steps, outcomes);
}

} // verus!
