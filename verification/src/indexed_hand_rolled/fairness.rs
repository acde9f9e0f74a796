//! What one whole call of `Router::poll_next` comes to.

use super::calls::{law_one_read, law_one_write};
use super::calls::{read_call, reads, send_action, send_call, writes};
use super::{read_step, ReadAction, ReadEvent, SendAction, SendEvent};
use super::{awaits, can_deliver, clients_after, hands_in_again, pass_after, wakes, Event, Pass, SocketView};
use crate::poll::Poll;
use vstd::prelude::*;

verus! {

/// One answered poll of a pass.
#[verifier::reject_recursive_types(S)]
#[verifier::reject_recursive_types(W)]
#[verifier::reject_recursive_types(E)]
pub struct Record<S, W, E> {
    pub clients: Seq<SocketView<S, W>>,
    pub pass: Pass,
    pub event: Event<S, E>,
}

impl<S, W, E> Record<S, W, E> {
    pub open spec fn after(self) -> Seq<SocketView<S, W>> {
        clients_after(self.clients, self.pass, self.event)
    }

    pub open spec fn next(self) -> Pass {
        pass_after(self.pass, self.event, false, self.after().len())
    }

    /// [`super::Router::poll_next`] can be called with this event, for the last time where
    /// it was to be handed in again.
    pub open spec fn permitted(self) -> bool {
        &&& !hands_in_again(self.clients, self.pass, self.event)
        &&& awaits(self.pass, self.event, self.clients.len())
        &&& self.event matches Event::Read(Poll::Ready(_)) ==> can_deliver(
            self.clients,
            self.pass->PollRead_0 as int,
        )
    }

    /// The client at place `i` was polled for writing and was pending.
    pub open spec fn settles(self, i: int) -> bool {
        &&& self.pass == Pass::PollSend(i as usize)
        &&& self.event matches Event::Sent(Poll::Pending)
    }

    /// A client was polled for reading and was pending.
    pub open spec fn finds_nothing(self) -> bool {
        self.event matches Event::Read(Poll::Pending)
    }

    /// The listener was polled and was pending.
    pub open spec fn rests(self) -> bool {
        self.event matches Event::Accepted(Poll::Pending)
    }

    /// The client at place `i` was polled for reading.
    pub open spec fn reads(self, i: int) -> bool {
        self.pass == Pass::PollRead(i as usize)
    }
}

/// The records of one pass, from its start to its end. Between two of them the
/// sockets are written to and read from and messages are delivered, and nobody comes or
/// goes.
pub open spec fn whole_pass<S, W, E>(records: Seq<Record<S, W, E>>) -> bool {
    &&& records.len() > 0
    &&& records[0].pass == Pass::PollAccept
    &&& records.last().next() == Pass::Return
    &&& forall|i: int|
        0 <= i < records.len() ==> {
            &&& (#[trigger] records[i]).permitted()
            &&& records[i].after().len() <= usize::MAX
        }
    &&& forall|i: int, j: int|
        0 <= i && j == i + 1 && j < records.len() ==> {
            &&& (#[trigger] records[j]).pass == (#[trigger] records[i]).next()
            &&& records[j].clients.len() == records[i].after().len()
        }
}

/// Before the record at `k`, the client at place `i` was polled for writing and was
/// pending.
pub open spec fn settled<S, W, E>(records: Seq<Record<S, W, E>>, k: int, i: int) -> bool {
    exists|l: int| 0 <= l < k && #[trigger] records[l].settles(i)
}

/// Before the record at `k`, the client at place `i` was polled for reading.
pub open spec fn was_read<S, W, E>(records: Seq<Record<S, W, E>>, k: int, i: int) -> bool {
    exists|l: int| 0 <= l < k && #[trigger] records[l].reads(i)
}

spec fn settled_before<S, W, E>(records: Seq<Record<S, W, E>>, k: int, n: int) -> bool {
    forall|i: int| 0 <= i < n ==> #[trigger] settled(records, k, i)
}

spec fn read_before<S, W, E>(records: Seq<Record<S, W, E>>, k: int, n: int) -> bool {
    forall|i: int| 0 <= i < n ==> #[trigger] was_read(records, k, i)
}

/// While the event of a read is to be handed in again, the same client is what was
/// polled, nobody comes, and the task asks to be polled again.
pub proof fn law_handed_in_again<S, W, E>(
    clients: Seq<SocketView<S, W>>,
    pass: Pass,
    event: Event<S, E>,
)
    requires
        awaits(pass, event, clients.len()),
        hands_in_again(clients, pass, event),
        can_deliver(clients, pass->PollRead_0 as int),
    ensures
        ({
            let after = clients_after(clients, pass, event);
            &&& after.len() == clients.len()
            &&& pass_after(pass, event, true, after.len()) == pass
            &&& wakes(event)
        }),
{
}

proof fn lemma_before_grows<S, W, E>(records: Seq<Record<S, W, E>>, k: int, n: int)
    requires
        0 <= k,
    ensures
        settled_before(records, k, n) ==> settled_before(records, k + 1, n),
        read_before(records, k, n) ==> read_before(records, k + 1, n),
        settled_before(records, k, n) && records[k].settles(n) ==> settled_before(
            records,
            k + 1,
            n + 1,
        ),
        read_before(records, k, n) && records[k].reads(n) ==> read_before(records, k + 1, n + 1),
{
    if settled_before(records, k, n) {
        assert forall|i: int| 0 <= i < n implies #[trigger] settled(records, k + 1, i) by {
            assert(settled(records, k, i));
        }
    }
    if read_before(records, k, n) {
        assert forall|i: int| 0 <= i < n implies #[trigger] was_read(records, k + 1, i) by {
            assert(was_read(records, k, i));
        }
    }
}

/// What `pass`, reached before the record at `k`, says of the records before it.
spec fn progress<S, W, E>(
    records: Seq<Record<S, W, E>>,
    k: int,
    pass: Pass,
    clients: nat,
) -> bool {
    match pass {
        Pass::PollAccept => true,
        Pass::PollSend(i) => i < clients && settled_before(records, k, i as int),
        Pass::PollRead(i) => {
            &&& i < clients
            &&& settled_before(records, k, clients as int)
            &&& read_before(records, k, i as int)
        },
        Pass::Return => {
            &&& settled_before(records, k, clients as int)
            &&& read_before(records, k, clients as int)
        },
    }
}

proof fn lemma_progress<S, W, E>(records: Seq<Record<S, W, E>>, k: int)
    requires
        whole_pass(records),
        0 <= k < records.len(),
    ensures
        progress(records, k + 1, records[k].next(), records[k].after().len()),
    decreases k,
{
    let record = records[k];
    if k > 0 {
        lemma_progress(records, k - 1);
        assert(records[k].pass == records[k - 1].next());
    }
    assert(progress(records, k, record.pass, record.clients.len()));
    match record.pass {
        Pass::PollSend(i) => {
            lemma_before_grows(records, k, i as int);
        },
        Pass::PollRead(i) => {
            lemma_before_grows(records, k, i as int);
            lemma_before_grows(records, k, record.clients.len() as int);
            assert(record.after().len() == record.clients.len());
        },
        _ => {},
    }
}

proof fn lemma_reads_advance<S, W, E>(records: Seq<Record<S, W, E>>, k: int, l: int)
    requires
        whole_pass(records),
        0 <= k < l < records.len(),
        records[k].pass is PollRead,
    ensures
        records[l].pass is PollRead,
        records[k].pass->PollRead_0 < records[l].pass->PollRead_0,
    decreases l,
{
    assert(records[l].pass == records[l - 1].next());
    if k < l - 1 {
        lemma_reads_advance(records, k, l - 1);
    }
}

/// Every pass polls the listener until nobody connects, every client for writing
/// until it is pending, and every client exactly once for reading: no client keeps
/// another from its turn.
pub proof fn law_every_client_polled<S, W, E>(records: Seq<Record<S, W, E>>)
    requires
        whole_pass(records),
    ensures
        ({
            let clients = records.last().after().len();
            &&& forall|i: int|
                0 <= i < clients ==> #[trigger] settled(records, records.len() as int, i)
            &&& forall|i: int|
                0 <= i < clients ==> #[trigger] was_read(records, records.len() as int, i)
            &&& forall|k: int, l: int|
                0 <= k < l < records.len() && (#[trigger] records[k]).pass is PollRead
                    ==> records[k].pass != (#[trigger] records[l]).pass
            &&& exists|k: int|
                0 <= k < records.len() && (#[trigger] records[k]).pass == Pass::PollAccept && !(
                records[k].event matches Event::Accepted(Poll::Ready(Ok(_))))
        }),
{
    let last = records.len() - 1;
    lemma_progress(records, last);
    assert forall|k: int, l: int|
        0 <= k < l < records.len() && (#[trigger] records[k]).pass is PollRead implies records[k].pass
        != (#[trigger] records[l]).pass by {
        lemma_reads_advance(records, k, l);
    }
    lemma_accepting_ends(records, last);
}

proof fn lemma_accepting_ends<S, W, E>(records: Seq<Record<S, W, E>>, k: int)
    requires
        whole_pass(records),
        0 <= k < records.len(),
        records[k].next() != Pass::PollAccept,
    ensures
        exists|l: int|
            0 <= l < records.len() && (#[trigger] records[l]).pass == Pass::PollAccept && !(
            records[l].event matches Event::Accepted(Poll::Ready(Ok(_)))),
    decreases k,
{
    if records[k].pass == Pass::PollAccept {
        assert(records[k].permitted());
        assert(!(records[k].event matches Event::Accepted(Poll::Ready(Ok(_)))));
    } else {
        assert(k > 0);
        assert(records[k].pass == records[k - 1].next());
        lemma_accepting_ends(records, k - 1);
    }
}

/// Either the task asks to be polled again, or the last poll of whatever there is was
/// pending and wakes it later: in a pass that does not ask to be polled again, the
/// listener ended pending, every client was pending for writing, and every client was
/// pending for reading.
pub proof fn law_nothing_ready_is_forgotten<S, W, E>(records: Seq<Record<S, W, E>>)
    requires
        whole_pass(records),
        forall|k: int| 0 <= k < records.len() ==> !wakes((#[trigger] records[k]).event),
    ensures
        ({
            let clients = records.last().after().len();
            &&& forall|i: int|
                0 <= i < clients ==> #[trigger] settled(records, records.len() as int, i)
            &&& forall|i: int|
                0 <= i < clients ==> #[trigger] was_read(records, records.len() as int, i)
            &&& forall|k: int|
                0 <= k < records.len() && (#[trigger] records[k]).pass is PollRead
                    ==> records[k].finds_nothing()
            &&& exists|k: int| 0 <= k < records.len() && (#[trigger] records[k]).rests()
        }),
{
    law_every_client_polled(records);
    assert forall|k: int|
        0 <= k < records.len() && (
        #[trigger] records[k]).pass is PollRead implies records[k].finds_nothing() by {
        assert(records[k].permitted());
        assert(!wakes(records[k].event));
    }
    let k = choose|k: int|
        0 <= k < records.len() && (#[trigger] records[k]).pass == Pass::PollAccept && !(
        records[k].event matches Event::Accepted(Poll::Ready(Ok(_))));
    assert(records[k].permitted());
    assert(!wakes(records[k].event));
    assert(records[k].rests());
}

/// What a socket went through in one poll of a pass.
pub struct Call<S, W, E> {
    /// The socket when the poll began.
    pub socket: SocketView<S, W>,
    /// What happened in its `poll_send`, where it was polled for writing.
    pub sends: Seq<SendEvent<W, E>>,
    /// What happened in its `poll_read`, where it was polled for reading.
    pub reads: Seq<ReadEvent<E>>,
}

/// What the pass was told of the poll is what the socket's call returned.
pub open spec fn carried_out<S, W, E>(record: Record<S, W, E>, call: Call<S, W, E>) -> bool {
    match record.event {
        Event::Accepted(_) => true,
        Event::Sent(outcome) => {
            &&& send_call(call.socket, call.sends)
            &&& send_action(call.socket, call.sends) == SendAction::Return(outcome)
        },
        Event::Read(outcome) => {
            &&& read_call(call.reads)
            &&& read_step(call.reads.last()) == ReadAction::Return(outcome)
        },
    }
}

/// Where the client was ready, it was written to or read from exactly once. Otherwise it
/// was not written to or read from at all.
pub open spec fn once<S, W, E>(record: Record<S, W, E>, call: Call<S, W, E>) -> bool {
    match record.event {
        Event::Accepted(_) => true,
        Event::Sent(outcome) => writes(call.sends) == if outcome is Ready {
            1nat
        } else {
            0nat
        },
        Event::Read(outcome) => reads(call.reads) == if outcome is Ready {
            1nat
        } else {
            0nat
        },
    }
}

/// In every pass each client is written to once for each poll for writing that found it
/// ready, and it is polled until it is pending. It has exactly one turn to be read from,
/// and if that found it ready it was read from exactly once.
pub proof fn law_one_write_or_read_each<S, W, E>(
    records: Seq<Record<S, W, E>>,
    calls: Seq<Call<S, W, E>>,
)
    requires
        whole_pass(records),
        calls.len() == records.len(),
        forall|k: int| 0 <= k < records.len() ==> carried_out(#[trigger] records[k], calls[k]),
    ensures
        forall|k: int| 0 <= k < records.len() ==> once(#[trigger] records[k], calls[k]),
        ({
            let clients = records.last().after().len();
            &&& forall|i: int|
                0 <= i < clients ==> #[trigger] settled(records, records.len() as int, i)
            &&& forall|i: int|
                0 <= i < clients ==> #[trigger] was_read(records, records.len() as int, i)
            &&& forall|k: int, l: int|
                0 <= k < l < records.len() && (#[trigger] records[k]).pass is PollRead
                    ==> records[k].pass != (#[trigger] records[l]).pass
        }),
{
    law_every_client_polled(records);
    assert forall|k: int| 0 <= k < records.len() implies once(
        #[trigger] records[k],
        calls[k],
    ) by {
        assert(carried_out(records[k], calls[k]));
        match records[k].event {
            Event::Accepted(_) => {},
            Event::Sent(outcome) => {
                law_one_write(calls[k].socket, calls[k].sends, outcome);
            },
            Event::Read(outcome) => {
                law_one_read(calls[k].reads, outcome);
            },
        }
    }
}

} // verus!
