//! What one whole call of `Server::poll_next` comes to.

use super::calls::{law_one_read, law_one_write};
use super::calls::{read_call, reads, send_action, send_call, writes};
use super::{read_step, turn, Action, Event, PassView, ReadAction, ReadEvent};
use super::{SendAction, SendEvent, SocketView, Stage, Step};
use crate::poll::Poll;
use crate::table::lists;
use vstd::prelude::*;

verus! {

/// One answered poll of a pass.
#[verifier::reject_recursive_types(S)]
#[verifier::reject_recursive_types(W)]
#[verifier::reject_recursive_types(E)]
pub struct Record<S, W, E> {
    pub clients: Map<u32, SocketView<S, W>>,
    pub pass: PassView,
    pub event: Event<S, E>,
    pub after: Map<u32, SocketView<S, W>>,
    pub next: PassView,
    pub step: Step<W, E>,
}

impl<S, W, E> Record<S, W, E> {
    /// [`super::Server::poll_next`] was called with the event, for the last time where it
    /// was to be handed in again, and did what it promises.
    pub open spec fn holds(self) -> bool {
        &&& !self.step.again
        &&& self.pass.valid(self.clients.dom())
        &&& self.pass.awaits(self.event)
        &&& turn(self.clients, self.pass, self.event, self.after, self.next, self.step)
        &&& self.next.valid(self.after.dom())
    }
}

/// The records of one pass, from its start to its end. Between two of them the
/// sockets are written to and read from and messages are delivered, and nobody comes or
/// goes.
pub open spec fn whole_pass<S, W, E>(records: Seq<Record<S, W, E>>) -> bool {
    &&& records.len() > 0
    &&& records[0].pass == PassView::started()
    &&& records.last().next.stage == Stage::Finished
    &&& forall|i: int| 0 <= i < records.len() ==> (#[trigger] records[i]).holds()
    &&& forall|i: int, j: int|
        0 <= i && j == i + 1 && j < records.len() ==> {
            &&& (#[trigger] records[j]).pass == (#[trigger] records[i]).next
            &&& records[j].clients.dom() == records[i].after.dom()
        }
}

proof fn lemma_sending_stage<S, W, E>(records: Seq<Record<S, W, E>>, k: int)
    requires
        whole_pass(records),
        0 <= k < records[0].next.todo.len(),
    ensures
        k + 1 < records.len(),
        records[k + 1].pass.stage == Stage::Sending,
        records[k + 1].pass.todo == records[0].next.todo.take(
            records[0].next.todo.len() - k,
        ),
        records[k + 1].clients.dom() == records[0].after.dom(),
    decreases k,
{
    let todo = records[0].next.todo;
    if k == 0 {
        assert(records[0].holds());
        assert(records[1].pass == records[0].next);
        assert(todo.take(todo.len() as int) =~= todo);
    } else {
        lemma_sending_stage(records, k - 1);
        assert(records[k].holds());
        assert(records[k + 1].pass == records[k].next);
        assert(todo.take(todo.len() - (k - 1)).drop_last() =~= todo.take(todo.len() - k));
    }
}

proof fn lemma_reading_stage<S, W, E>(records: Seq<Record<S, W, E>>, k: int)
    requires
        whole_pass(records),
        0 <= k < records[0].next.todo.len(),
    ensures
        ({
            let count = records[0].next.todo.len();
            &&& count + k + 1 < records.len()
            &&& lists(records[count as int].next.todo, records[0].after.dom())
            &&& records[count as int].next.todo.len() == count
            &&& records[count + k + 1].pass.stage == Stage::Reading
            &&& records[count + k + 1].pass.todo == records[count as int].next.todo.take(count - k)
            &&& k + 1 == count ==> records[count + k + 1].next.stage == Stage::Finished
        }),
    decreases k,
{
    broadcast use crate::table::lemma_listed;

    let count = records[0].next.todo.len() as int;
    let todo = records[count].next.todo;
    lemma_sending_stage(records, count - 1);
    assert(records[0].holds());
    assert(records[count].holds());
    assert(lists(todo, records[0].after.dom()));
    assert(todo.len() == count);
    if k == 0 {
        assert(records[count + 1].pass == records[count].next);
        assert(todo.take(count) =~= todo);
    } else {
        lemma_reading_stage(records, k - 1);
        assert(records[count + k].holds());
        assert(records[count + k + 1].pass == records[count + k].next);
        assert(todo.take(count - (k - 1)).drop_last() =~= todo.take(count - k));
    }
    assert(records[count + k + 1].holds());
}

proof fn lemma_pass_length<S, W, E>(records: Seq<Record<S, W, E>>)
    requires
        whole_pass(records),
    ensures
        records.len() == 1 + 2 * records[0].next.todo.len(),
{
    let count = records[0].next.todo.len() as int;
    assert(records[0].holds());
    if count == 0 {
        if records.len() > 1 {
            assert(records[1].pass == records[0].next);
            assert(records[1].holds());
        }
    } else {
        lemma_reading_stage(records, count - 1);
        if records.len() > 1 + 2 * count {
            assert(records[1 + 2 * count].pass == records[2 * count].next);
            assert(records[1 + 2 * count].holds());
        }
    }
}

/// While the event of a read is to be handed in again, the same client is what was
/// polled, nobody comes or goes, and the task asks to be polled again.
pub proof fn law_handed_in_again<S, W, E>(
    clients: Map<u32, SocketView<S, W>>,
    pass: PassView,
    event: Event<S, E>,
    after: Map<u32, SocketView<S, W>>,
    next: PassView,
    step: Step<W, E>,
)
    requires
        pass.valid(clients.dom()),
        pass.awaits(event),
        turn(clients, pass, event, after, next, step),
        step.again,
    ensures
        event is Read,
        next == pass,
        after.dom() == clients.dom(),
        step.wake,
{
    assert(clients.contains_key(pass.todo.last()));
    assert(after.dom() =~= clients.dom());
}

/// What is polled at each place of a pass.
spec fn polled_at<S, W, E>(records: Seq<Record<S, W, E>>, i: int) -> Action {
    let count = records[0].next.todo.len() as int;
    if i == 0 {
        Action::PollAccept
    } else if i <= count {
        Action::PollSend(records[0].next.todo[count - i])
    } else {
        Action::PollRead(records[count].next.todo[2 * count - i])
    }
}

proof fn lemma_polled_at<S, W, E>(records: Seq<Record<S, W, E>>, i: int)
    requires
        whole_pass(records),
        0 <= i < records.len(),
    ensures
        records[i].pass.action() == polled_at(records, i),
{
    let count = records[0].next.todo.len() as int;
    lemma_pass_length(records);
    if 1 <= i <= count {
        lemma_sending_stage(records, i - 1);
    } else if i > count {
        lemma_reading_stage(records, i - 1 - count);
    }
}

proof fn lemma_polled_once<S, W, E>(records: Seq<Record<S, W, E>>, i: int, j: int)
    requires
        whole_pass(records),
        0 <= i < j < records.len(),
    ensures
        polled_at(records, i) != polled_at(records, j),
{
    let count = records[0].next.todo.len() as int;
    lemma_pass_length(records);
    assert(records[0].holds());
    if count > 0 {
        lemma_reading_stage(records, 0);
    }
}

proof fn lemma_polled<S, W, E>(records: Seq<Record<S, W, E>>, id: u32)
    requires
        whole_pass(records),
        records[0].after.contains_key(id),
    ensures
        exists|i: int|
            0 <= i < records.len() && (#[trigger] records[i]).pass.action() == Action::PollSend(id),
        exists|i: int|
            0 <= i < records.len() && (#[trigger] records[i]).pass.action() == Action::PollRead(id),
{
    broadcast use crate::table::lemma_listed;

    let count = records[0].next.todo.len() as int;
    let sends = records[0].next.todo;
    let reads = records[count].next.todo;
    lemma_pass_length(records);
    assert(records[0].holds());
    assert(sends.contains(id));
    let p = choose|p: int| 0 <= p < sends.len() && sends[p] == id;
    lemma_polled_at(records, count - p);
    assert(records[count - p].pass.action() == Action::PollSend(id));
    lemma_reading_stage(records, 0);
    assert(reads.contains(id));
    let q = choose|q: int| 0 <= q < reads.len() && reads[q] == id;
    lemma_polled_at(records, 2 * count - q);
    assert(records[2 * count - q].pass.action() == Action::PollRead(id));
}

/// Every pass polls every connected client, the newly accepted one too, exactly
/// once for writing and exactly once for reading: no client keeps another from
/// its turn.
pub proof fn law_every_client_polled_once<S, W, E>(records: Seq<Record<S, W, E>>)
    requires
        whole_pass(records),
    ensures
        records.len() == 1 + 2 * records[0].after.dom().len(),
        forall|id: u32| #[trigger]
            records[0].after.contains_key(id) ==> {
                &&& exists|i: int|
                    0 <= i < records.len() && (#[trigger] records[i]).pass.action()
                        == Action::PollSend(id)
                &&& exists|i: int|
                    0 <= i < records.len() && (#[trigger] records[i]).pass.action()
                        == Action::PollRead(id)
            },
        forall|i: int, j: int|
            0 <= i < j < records.len() ==> (#[trigger] records[i]).pass.action() != (
            #[trigger] records[j]).pass.action(),
{
    lemma_pass_length(records);
    assert(records[0].holds());
    assert(records[0].next.todo.len() == records[0].after.dom().len()) by {
        crate::table::lemma_listed(records[0].next.todo, records[0].after.dom());
    }
    assert forall|id: u32| #[trigger] records[0].after.contains_key(id) implies {
        &&& exists|i: int|
            0 <= i < records.len() && (#[trigger] records[i]).pass.action() == Action::PollSend(id)
        &&& exists|i: int|
            0 <= i < records.len() && (#[trigger] records[i]).pass.action() == Action::PollRead(id)
    } by {
        lemma_polled(records, id);
    }
    assert forall|i: int, j: int| 0 <= i < j < records.len() implies (
    #[trigger] records[i]).pass.action() != (#[trigger] records[j]).pass.action() by {
        lemma_polled_at(records, i);
        lemma_polled_at(records, j);
        lemma_polled_once(records, i, j);
    }
}

/// What was polled wakes the task later, or is gone: it was pending, or it is a client
/// that could not be read from.
pub open spec fn attended<S, W, E>(record: Record<S, W, E>) -> bool {
    match record.event {
        Event::Accepted(outcome) => outcome is Pending,
        Event::Sent(outcome) => outcome is Pending,
        Event::Read(outcome) => match outcome {
            Poll::Ready(Ok(_)) => false,
            Poll::Ready(Err(_)) => !record.after.contains_key(record.pass.todo.last()),
            Poll::Pending => true,
        },
    }
}

/// Either the task asks to be polled again, or whatever it polled was pending and
/// wakes it later: in a pass that does not ask to be polled again, the listener and
/// every client were pending, but for clients that could not be read from and are
/// gone.
pub proof fn law_nothing_ready_is_forgotten<S, W, E>(records: Seq<Record<S, W, E>>)
    requires
        whole_pass(records),
        forall|i: int| 0 <= i < records.len() ==> !(#[trigger] records[i]).step.wake,
    ensures
        forall|i: int| 0 <= i < records.len() ==> attended(#[trigger] records[i]),
{
    assert forall|i: int| 0 <= i < records.len() implies attended(#[trigger] records[i]) by {
        assert(records[i].holds());
    }
}

/// What a socket went through in one poll of a pass.
pub struct Call<S, W, E> {
    /// The socket when the poll began.
    pub socket: SocketView<S, W>,
    /// What happened in its `poll_send`, where it was polled for writing.
    pub sends: Seq<SendEvent<W, E>>,
    /// What happened in its `poll_read`, where it was polled for reading.
    pub reads: Seq<ReadEvent<E>>,
}

/// What the pass was told of the poll is what the socket's call returned.
pub open spec fn carried_out<S, W, E>(record: Record<S, W, E>, call: Call<S, W, E>) -> bool {
    match record.event {
        Event::Accepted(_) => true,
        Event::Sent(outcome) => {
            &&& send_call(call.socket, call.sends)
            &&& send_action(call.socket, call.sends) == SendAction::<E>::Return(outcome)
        },
        Event::Read(outcome) => {
            &&& read_call(call.reads)
            &&& read_step(call.reads.last()) == ReadAction::<E>::Return(outcome)
        },
    }
}

/// Where the client was ready without an error, it was written to or read from exactly
/// once. Otherwise it was not written to or read from at all.
pub open spec fn once<S, W, E>(record: Record<S, W, E>, call: Call<S, W, E>) -> bool {
    match record.event {
        Event::Accepted(_) => true,
        Event::Sent(outcome) => writes(call.sends) == match outcome {
            Poll::Ready(Ok(_)) => 1nat,
            _ => 0nat,
        },
        Event::Read(outcome) => reads(call.reads) == match outcome {
            Poll::Ready(Ok(_)) => 1nat,
            _ => 0nat,
        },
    }
}

/// In every pass each connected client has exactly one turn to be written to and exactly
/// one to be read from, and in each turn that found it ready it was written to or read
/// from exactly once.
pub proof fn law_one_write_and_one_read_each<S, W, E>(
    records: Seq<Record<S, W, E>>,
    calls: Seq<Call<S, W, E>>,
)
    requires
        whole_pass(records),
        calls.len() == records.len(),
        forall|i: int| 0 <= i < records.len() ==> carried_out(#[trigger] records[i], calls[i]),
    ensures
        forall|i: int| 0 <= i < records.len() ==> once(#[trigger] records[i], calls[i]),
        forall|id: u32| #[trigger]
            records[0].after.contains_key(id) ==> {
                &&& exists|i: int|
                    0 <= i < records.len() && (#[trigger] records[i]).pass.action()
                        == Action::PollSend(id)
                &&& exists|i: int|
                    0 <= i < records.len() && (#[trigger] records[i]).pass.action()
                        == Action::PollRead(id)
            },
        forall|i: int, j: int|
            0 <= i < j < records.len() ==> (#[trigger] records[i]).pass.action() != (
            #[trigger] records[j]).pass.action(),
{
    law_every_client_polled_once(records);
    assert forall|i: int| 0 <= i < records.len() implies once(
        #[trigger] records[i],
        calls[i],
    ) by {
        assert(carried_out(records[i], calls[i]));
        match records[i].event {
            Event::Accepted(_) => {},
            Event::Sent(outcome) => {
                law_one_write(calls[i].socket, calls[i].sends, outcome);
            },
            Event::Read(outcome) => {
                law_one_read(calls[i].reads, outcome);
            },
        }
    }
}

} // verus!
