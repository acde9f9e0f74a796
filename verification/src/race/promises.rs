//! What a caller can count on of each function, in terms of what the sockets hold.

use super::{Event, ReadSocket, Router, SendAction, WriteSocket};
use crate::buffers::unread;
use crate::message::{law_message_in_bytes, law_parsed_is_encoded, parse};
use crate::poll::Contest;
use crate::wire::network_bytes;
use vstd::prelude::*;

verus! {

/// The reader at place `i` holds the same in both routers.
pub open spec fn same_reader<R, W>(a: Router<R, W>, b: Router<R, W>, i: int) -> bool {
    &&& unread(a.read_connections@[i].buffer) == unread(b.read_connections@[i].buffer)
    &&& a.read_connections@[i].reader == b.read_connections@[i].reader
}

/// The writer at place `i` holds the same in both routers.
pub open spec fn same_writer<R, W>(a: Router<R, W>, b: Router<R, W>, i: int) -> bool {
    &&& unread(a.write_connections@[i].buffer) == unread(b.write_connections@[i].buffer)
    &&& a.write_connections@[i].writer == b.write_connections@[i].writer
}

/// There is one client more than `before`, at the last place: both halves of its stream are
/// those that were accepted, it is owed its place in network order and nothing else, and
/// nothing was read from it. Everyone else is as before.
pub open spec fn newly_connected<R, W>(
    before: Router<R, W>,
    reader: R,
    writer: W,
    after: Router<R, W>,
) -> bool {
    let r = before.read_connections@.len() as int;
    let w = before.write_connections@.len() as int;
    &&& after.read_connections@.len() == r + 1
    &&& after.write_connections@.len() == w + 1
    &&& after.read_connections@[r].reader == reader
    &&& unread(after.read_connections@[r].buffer).len() == 0
    &&& after.write_connections@[w].writer == writer
    &&& unread(after.write_connections@[w].buffer) == network_bytes(w as u32)
    &&& forall|i: int| 0 <= i < r ==> #[trigger] same_reader(before, after, i)
    &&& forall|i: int| 0 <= i < w ==> #[trigger] same_writer(before, after, i)
}

/// What reading from `from` makes of the clients: the bytes up to the first null byte after
/// the first four leave what `from` sent, if there is one, and those after the first four
/// follow what the client is owed whose place the first four name. Nobody comes or goes,
/// streams stay where they are, and nobody else notices.
pub open spec fn forwards<R, W>(before: Router<R, W>, from: int, after: Router<R, W>) -> bool {
    &&& after.read_connections@.len() == before.read_connections@.len()
    &&& after.write_connections@.len() == before.write_connections@.len()
    &&& forall|i: int|
        0 <= i < before.read_connections@.len() && i != from ==> #[trigger] same_reader(
            before,
            after,
            i,
        )
    &&& after.read_connections@[from].reader == before.read_connections@[from].reader
    &&& match parse(unread(before.read_connections@[from].buffer)) {
        None => {
            &&& unread(after.read_connections@[from].buffer) == unread(
                before.read_connections@[from].buffer,
            )
            &&& forall|i: int|
                0 <= i < before.write_connections@.len() ==> #[trigger] same_writer(
                    before,
                    after,
                    i,
                )
        },
        Some((dest, payload, rest)) => {
            let d = dest as int;
            &&& unread(after.read_connections@[from].buffer) == rest
            &&& unread(after.write_connections@[d].buffer) == unread(
                before.write_connections@[d].buffer,
            ) + payload
            &&& after.write_connections@[d].writer == before.write_connections@[d].writer
            &&& forall|i: int|
                0 <= i < before.write_connections@.len() && i != d ==> #[trigger] same_writer(
                    before,
                    after,
                    i,
                )
        },
    }
}

/// What `from` sent, if it is a whole message, is for a client that is connected and has room
/// for it.
pub open spec fn deliverable<R, W>(router: Router<R, W>, from: int) -> bool {
    parse(unread(router.read_connections@[from].buffer)) matches Some((dest, payload, _)) ==> {
        &&& dest < router.write_connections@.len()
        &&& unread(router.write_connections@[dest as int].buffer).len() + payload.len()
            <= isize::MAX
    }
}

/// A new reader has the half of the stream that it was made with, and nothing was read.
pub proof fn law_new_reader<R>(reader: R, socket: ReadSocket<R>)
    requires
        call_ensures(ReadSocket::<R>::new, (reader,), socket),
    ensures
        socket.reader == reader,
        unread(socket.buffer).len() == 0,
{
    assert(socket@.incoming.len() == 0);
}

/// A new writer has the half of the stream that it was made with, and nothing waits.
pub proof fn law_new_writer<W>(writer: W, socket: WriteSocket<W>)
    requires
        call_ensures(WriteSocket::<W>::new, (writer,), socket),
    ensures
        socket.writer == writer,
        unread(socket.buffer).len() == 0,
{
    assert(socket@.pending.len() == 0);
}

/// Whatever waits is written, however long it is: the writer waits only where nothing waits
/// to be written.
pub proof fn law_writer_goes_on<W>(socket: &WriteSocket<W>, action: SendAction)
    requires
        call_ensures(WriteSocket::<W>::advance_send, (socket,), action),
    ensures
        action == SendAction::WriteAll <==> unread(socket.buffer).len() > 0,
{
    assert(socket@.pending.len() == unread(socket.buffer).len());
}

/// What is sent follows all that waits.
pub proof fn law_send_appends<W>(socket: &mut WriteSocket<W>, buf: &[u8])
    requires
        call_ensures(WriteSocket::<W>::send, (socket, buf), ()),
        unread(old(socket).buffer).len() + buf@.len() <= isize::MAX,
    ensures
        unread(final(socket).buffer) == unread(old(socket).buffer) + buf@,
        final(socket).writer == old(socket).writer,
{
    assert(final(socket)@.pending == old(socket)@.pending + buf@);
    assert(final(socket)@.writer == old(socket)@.writer);
}

proof fn lemma_lengths<R, W>(router: Router<R, W>)
    ensures
        router@.readers.len() == router.read_connections@.len(),
        router@.writers.len() == router.write_connections@.len(),
        forall|i: int|
            0 <= i < router.read_connections@.len() ==> #[trigger] router@.readers[i]
                == router.read_connections@[i]@,
        forall|i: int|
            0 <= i < router.write_connections@.len() ==> #[trigger] router@.writers[i]
                == router.write_connections@[i]@,
{
}

proof fn lemma_same_reader<R, W>(a: Router<R, W>, b: Router<R, W>, i: int)
    requires
        0 <= i < a@.readers.len(),
        i < b@.readers.len(),
        a@.readers[i] == b@.readers[i],
    ensures
        same_reader(a, b, i),
{
    lemma_lengths(a);
    lemma_lengths(b);
}

proof fn lemma_same_writer<R, W>(a: Router<R, W>, b: Router<R, W>, i: int)
    requires
        0 <= i < a@.writers.len(),
        i < b@.writers.len(),
        a@.writers[i] == b@.writers[i],
    ensures
        same_writer(a, b, i),
{
    lemma_lengths(a);
    lemma_lengths(b);
}

proof fn lemma_joined<R, W>(before: Router<R, W>, reader: R, writer: W, after: Router<R, W>)
    requires
        after@ == before@.joined(reader, writer),
    ensures
        newly_connected(before, reader, writer, after),
{
    lemma_lengths(before);
    lemma_lengths(after);
    let r = before.read_connections@.len() as int;
    let w = before.write_connections@.len() as int;
    assert(after@.readers[r] == after.read_connections@[r]@);
    assert(after@.writers[w] == after.write_connections@[w]@);
    assert(after@.readers[r].incoming.len() == 0);
    assert forall|i: int| 0 <= i < r implies #[trigger] same_reader(before, after, i) by {
        lemma_same_reader(before, after, i);
    }
    assert forall|i: int| 0 <= i < w implies #[trigger] same_writer(before, after, i) by {
        lemma_same_writer(before, after, i);
    }
}

proof fn lemma_forwards<R, W>(before: Router<R, W>, from: int, after: Router<R, W>)
    requires
        0 <= from < before.read_connections@.len(),
        deliverable(before, from),
        after@ == before@.delivered(from),
    ensures
        forwards(before, from, after),
{
    lemma_lengths(before);
    lemma_lengths(after);
    assert(before@.readers[from] == before.read_connections@[from]@);
    assert(after@.readers[from] == after.read_connections@[from]@);
    assert forall|i: int|
        0 <= i < before.read_connections@.len() && i != from implies #[trigger] same_reader(
        before,
        after,
        i,
    ) by {
        lemma_same_reader(before, after, i);
    }
    match parse(unread(before.read_connections@[from].buffer)) {
        None => {
            assert forall|i: int|
                0 <= i < before.write_connections@.len() implies #[trigger] same_writer(
                before,
                after,
                i,
            ) by {
                lemma_same_writer(before, after, i);
            }
        },
        Some((dest, _, _)) => {
            assert(before@.writers[dest as int] == before.write_connections@[dest as int]@);
            assert(after@.writers[dest as int] == after.write_connections@[dest as int]@);
            assert forall|i: int|
                0 <= i < before.write_connections@.len() && i != dest implies #[trigger] same_writer(
                before,
                after,
                i,
            ) by {
                lemma_same_writer(before, after, i);
            }
        },
    }
}

/// Nobody is connected to a new router.
pub proof fn law_new_router<R, W>(router: Router<R, W>)
    requires
        call_ensures(Router::<R, W>::new, (), router),
    ensures
        router.read_connections@.len() == 0,
        router.write_connections@.len() == 0,
{
    lemma_lengths(router);
}

/// As soon as there is anyone to read from and to write to, the race is run among everyone,
/// however many they are.
pub proof fn law_everyone_races<R, W>(router: &Router<R, W>, contest: Contest)
    requires
        call_ensures(Router::<R, W>::contest, (router,), contest),
    ensures
        contest == Contest::Everyone <==> router.read_connections@.len() > 0
            && router.write_connections@.len() > 0,
{
    lemma_lengths(*router);
}

/// A client that joins is connected, however many are, and is owed its place.
pub proof fn law_join_connects<R, W>(router: &mut Router<R, W>, reader: R, writer: W)
    requires
        call_ensures(Router::<R, W>::join, (router, reader, writer), ()),
    ensures
        newly_connected(*old(router), reader, writer, *final(router)),
{
    lemma_joined(*old(router), reader, writer, *final(router));
}

/// What a client sent reaches whom it names.
pub proof fn law_deliver_forwards<R, W>(router: &mut Router<R, W>, from: usize, taken: bool)
    requires
        call_ensures(Router::<R, W>::deliver, (router, from), taken),
        from < old(router).read_connections@.len(),
        deliverable(*old(router), from as int),
    ensures
        forwards(*old(router), from as int, *final(router)),
        taken <==> exists|i: int|
            4 <= i < unread(old(router).read_connections@[from as int].buffer).len() && unread(
                old(router).read_connections@[from as int].buffer,
            )[i] == 0,
{
    lemma_lengths(*old(router));
    assert(old(router)@.readers[from as int] == old(router).read_connections@[from as int]@);
    law_message_in_bytes(unread(old(router).read_connections@[from as int].buffer));
    lemma_forwards(*old(router), from as int, *final(router));
}

/// Whoever wins a race by connecting is connected, however many are connected already.
pub proof fn law_accepted_is_connected<R, W>(
    router: &mut Router<R, W>,
    reader: R,
    writer: W,
    again: bool,
)
    requires
        call_ensures(
            Router::<R, W>::handle_connections,
            (router, Event::Connection(reader, writer)),
            again,
        ),
    ensures
        newly_connected(*old(router), reader, writer, *final(router)),
        !again,
{
    lemma_joined(*old(router), reader, writer, *final(router));
}

/// What was read reaches whom it names, and the event is asked for again exactly when a
/// message was taken.
pub proof fn law_read_is_forwarded<R, W>(router: &mut Router<R, W>, from: usize, again: bool)
    requires
        call_ensures(
            Router::<R, W>::handle_connections,
            (router, Event::<R, W>::Read(from)),
            again,
        ),
        from < old(router).read_connections@.len(),
        deliverable(*old(router), from as int),
    ensures
        forwards(*old(router), from as int, *final(router)),
        again <==> exists|i: int|
            4 <= i < unread(old(router).read_connections@[from as int].buffer).len() && unread(
                old(router).read_connections@[from as int].buffer,
            )[i] == 0,
        again ==> unread(final(router).read_connections@[from as int].buffer).len() < unread(
            old(router).read_connections@[from as int].buffer,
        ).len(),
{
    lemma_lengths(*old(router));
    assert(old(router)@.readers[from as int] == old(router).read_connections@[from as int]@);
    law_message_in_bytes(unread(old(router).read_connections@[from as int].buffer));
    law_parsed_is_encoded(unread(old(router).read_connections@[from as int].buffer));
    lemma_forwards(*old(router), from as int, *final(router));
}

} // verus!
