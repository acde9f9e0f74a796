//! What a caller can count on of each function, in terms of what the sockets hold.

use super::{Event, ReadSocket, SendAction, SendEvent, Server, Step, WriteSocket};
use crate::buffers::{content, contents, unread};
use crate::identity::drawn;
use crate::message::{law_message_in_bytes, law_parsed_is_encoded, parse};
use crate::poll::Contest;
use crate::queue::law_push_appends;
use crate::wire::network_bytes;
use bytes::Bytes;
use vstd::prelude::*;

verus! {

/// All bytes that wait to be written to a client, in order.
pub open spec fn owed<W>(socket: WriteSocket<W>) -> Seq<u8> {
    contents(socket.buffers@).flatten()
}

/// The two readers hold the same.
pub open spec fn same_reader<R>(a: ReadSocket<R>, b: ReadSocket<R>) -> bool {
    &&& unread(a.buffer) == unread(b.buffer)
    &&& a.reader == b.reader
    &&& a.id == b.id
}

/// The two writers hold the same.
pub open spec fn same_writer<W>(a: WriteSocket<W>, b: WriteSocket<W>) -> bool {
    &&& contents(a.buffers@) == contents(b.buffers@)
    &&& a.writer == b.writer
    &&& a.id == b.id
}

/// The client `id` is the same in both servers, or in neither.
pub open spec fn same_client<R, W>(a: Server<R, W>, b: Server<R, W>, id: u32) -> bool {
    &&& a.read_connections@.contains_key(id) == b.read_connections@.contains_key(id)
    &&& a.write_connections@.contains_key(id) == b.write_connections@.contains_key(id)
    &&& a.read_connections@.contains_key(id) ==> same_reader(
        a.read_connections@[id],
        b.read_connections@[id],
    )
    &&& a.write_connections@.contains_key(id) ==> same_writer(
        a.write_connections@[id],
        b.write_connections@[id],
    )
}

/// The client `id` is new: both halves of its stream are those that were accepted and know
/// the ID, it is owed its ID and nothing else, and nothing was read from it.
pub open spec fn newly_connected<R, W>(
    server: Server<R, W>,
    reader: R,
    writer: W,
    id: u32,
) -> bool {
    let read = server.read_connections@[id];
    let write = server.write_connections@[id];
    &&& server.read_connections@.contains_key(id)
    &&& server.write_connections@.contains_key(id)
    &&& read.reader == reader
    &&& read.id == id
    &&& unread(read.buffer).len() == 0
    &&& write.writer == writer
    &&& write.id == id
    &&& owed(write) == network_bytes(id)
}

/// What reading from `from` makes of the clients: the bytes up to the first null byte after
/// the first four leave what `from` sent, if there is one, and those after the first four
/// follow what the client is owed that the first four name, if it is connected. Nobody comes
/// or goes, streams stay where they are, and nobody else notices.
pub open spec fn forwards<R, W>(before: Server<R, W>, from: u32, after: Server<R, W>) -> bool {
    match parse(unread(before.read_connections@[from].buffer)) {
        None => forall|id: u32| #[trigger] same_client(before, after, id),
        Some((dest, payload, rest)) => {
            &&& unread(after.read_connections@[from].buffer) == rest
            &&& before.write_connections@.contains_key(dest) ==> owed(
                after.write_connections@[dest],
            ) == owed(before.write_connections@[dest]) + payload
            &&& forall|id: u32|
                {
                    &&& #[trigger] after.read_connections@.contains_key(id)
                        == before.read_connections@.contains_key(id)
                    &&& before.read_connections@.contains_key(id) ==> {
                        &&& after.read_connections@[id].reader
                            == before.read_connections@[id].reader
                        &&& after.read_connections@[id].id == before.read_connections@[id].id
                        &&& id != from ==> unread(after.read_connections@[id].buffer) == unread(
                            before.read_connections@[id].buffer,
                        )
                    }
                }
            &&& forall|id: u32|
                {
                    &&& #[trigger] after.write_connections@.contains_key(id)
                        == before.write_connections@.contains_key(id)
                    &&& before.write_connections@.contains_key(id) ==> {
                        &&& after.write_connections@[id].writer
                            == before.write_connections@[id].writer
                        &&& after.write_connections@[id].id == before.write_connections@[id].id
                        &&& id != dest ==> contents(after.write_connections@[id].buffers@)
                            == contents(before.write_connections@[id].buffers@)
                    }
                }
        },
    }
}

/// A new reader has the half of the stream and the ID that it was made with, and nothing was
/// read.
pub proof fn law_new_reader<R>(reader: R, id: u32, socket: ReadSocket<R>)
    requires
        call_ensures(ReadSocket::<R>::new, (reader, id), socket),
    ensures
        socket.reader == reader,
        socket.id == id,
        unread(socket.buffer).len() == 0,
{
    assert(socket@.incoming.len() == 0);
}

/// Every read that succeeds, whatever it gave, is told to the server under the client's ID,
/// and every error with it.
pub proof fn law_read_is_reported<R, W, E>(
    socket: &ReadSocket<R>,
    outcome: Result<usize, E>,
    event: Result<Event<R, W>, (E, u32)>,
)
    requires
        call_ensures(ReadSocket::<R>::read::<W, E>, (socket, outcome), event),
    ensures
        outcome is Ok ==> event == Ok::<Event<R, W>, (E, u32)>(Event::Read(socket.id)),
        outcome matches Err(error) ==> event == Err::<Event<R, W>, (E, u32)>((error, socket.id)),
{
}

/// A new writer has the half of the stream and the ID that it was made with, and nothing
/// waits.
pub proof fn law_new_writer<W>(writer: W, id: u32, socket: WriteSocket<W>)
    requires
        call_ensures(WriteSocket::<W>::new, (writer, id), socket),
    ensures
        socket.writer == writer,
        socket.id == id,
        socket.buffers@.len() == 0,
{
    assert(socket@.outgoing.len() == socket.buffers@.len());
}

/// What is sent follows all that waits.
pub proof fn law_send_appends<W>(socket: &mut WriteSocket<W>, buf: Bytes)
    requires
        call_ensures(WriteSocket::<W>::send, (socket, buf), ()),
    ensures
        owed(*final(socket)) == owed(*old(socket)) + content(buf),
        final(socket).writer == old(socket).writer,
        final(socket).id == old(socket).id,
{
    law_push_appends(contents(old(socket).buffers@), content(buf));
    assert(contents(final(socket).buffers@) == final(socket)@.outgoing);
    assert(contents(old(socket).buffers@) == old(socket)@.outgoing);
}

/// What is offered is the beginning of what waits, with what it is to be written to. What is
/// taken off it while it is written is gone from what waits, and nothing else is.
pub proof fn law_front_waited_longest<W>(
    socket: &mut WriteSocket<W>,
    buffer: &mut Bytes,
    writer: &mut W,
)
    requires
        call_ensures(WriteSocket::<W>::front, (socket,), (Some(buffer), writer)),
        exists|n: int|
            0 <= n <= content(*old(buffer)).len() && content(*final(buffer)) == #[trigger] content(
                *old(buffer),
            ).skip(n),
    ensures
        old(socket).buffers@.len() > 0,
        content(*old(buffer)) == content(old(socket).buffers@[0]),
        *old(writer) == old(socket).writer,
        final(socket).writer == *final(writer),
        final(socket).id == old(socket).id,
        ({
            let n = content(*old(buffer)).len() - content(*final(buffer)).len();
            owed(*old(socket)) == content(*old(buffer)).take(n) + owed(*final(socket))
        }),
{
    let queue = contents(old(socket).buffers@);
    let after = contents(final(socket).buffers@);
    let n = choose|n: int|
        0 <= n <= content(*old(buffer)).len() && content(*final(buffer)) == #[trigger] content(
            *old(buffer),
        ).skip(n);
    assert(queue == old(socket)@.outgoing);
    assert(after == final(socket)@.outgoing);
    assert(queue[0] == content(old(socket).buffers@[0]));
    assert(after.drop_first() =~= queue.drop_first());
    assert(queue.flatten() == queue[0] + queue.drop_first().flatten());
    assert(after.flatten() == after[0] + after.drop_first().flatten());
    assert(queue[0] =~= queue[0].take(n) + queue[0].skip(n));
    assert(owed(*old(socket)) =~= queue[0].take(n) + owed(*final(socket)));
}

/// There is nothing to offer exactly when no buffer waits.
pub proof fn law_nothing_to_offer<W>(
    socket: &mut WriteSocket<W>,
    front: Option<&mut Bytes>,
    writer: &mut W,
)
    requires
        call_ensures(WriteSocket::<W>::front, (socket,), (front, writer)),
    ensures
        front is None <==> old(socket).buffers@.len() == 0,
{
    assert(contents(old(socket).buffers@).len() == old(socket).buffers@.len());
    assert(contents(old(socket).buffers@) == old(socket)@.outgoing);
}

/// Whatever waits is written, however long it is: the writer waits only where nothing waits to
/// be written. A buffer that was written to its end is taken off, and no other. An error is
/// reported with the client's ID, and nothing is taken off.
pub proof fn law_writer_goes_on<W, E>(
    socket: &mut WriteSocket<W>,
    event: SendEvent<E>,
    action: SendAction<E>,
)
    requires
        call_ensures(WriteSocket::<W>::advance_send::<E>, (socket, event), action),
        event matches SendEvent::Written(Ok(_)) ==> old(socket).buffers@.len() > 0,
    ensures
        match event {
            SendEvent::Begin => contents(final(socket).buffers@) == contents(old(socket).buffers@),
            SendEvent::Written(Ok(_)) => {
                &&& contents(final(socket).buffers@).len() + 1 == old(socket).buffers@.len()
                &&& owed(*old(socket)) == content(old(socket).buffers@[0]) + owed(*final(socket))
            },
            SendEvent::Written(Err(error)) => {
                &&& contents(final(socket).buffers@) == contents(old(socket).buffers@)
                &&& action == SendAction::<E>::Fail((error, old(socket).id))
            },
        },
        action is Fail <==> event is Written && event->Written_0 is Err,
        !(action is Fail) ==> (action is WaitForever <==> final(socket).buffers@.len() == 0),
        final(socket).writer == old(socket).writer,
        final(socket).id == old(socket).id,
{
    let queue = contents(old(socket).buffers@);
    assert(queue == old(socket)@.outgoing);
    assert(contents(final(socket).buffers@) == final(socket)@.outgoing);
    assert(contents(final(socket).buffers@).len() == final(socket).buffers@.len());
    if event is Written && event->Written_0 is Ok {
        assert(queue[0] == content(old(socket).buffers@[0]));
        assert(queue.flatten() == queue[0] + queue.drop_first().flatten());
    }
}

proof fn lemma_same_client<R, W>(a: Server<R, W>, b: Server<R, W>, id: u32)
    requires
        a@.readers.contains_key(id) == b@.readers.contains_key(id),
        a@.readers.contains_key(id) ==> a@.readers[id] == b@.readers[id],
        a@.writers.contains_key(id) == b@.writers.contains_key(id),
        a@.writers.contains_key(id) ==> a@.writers[id] == b@.writers[id],
    ensures
        same_client(a, b, id),
{
    if a.read_connections@.contains_key(id) {
        assert(a@.readers[id] == a.read_connections@[id]@);
        assert(b@.readers[id] == b.read_connections@[id]@);
    }
    if a.write_connections@.contains_key(id) {
        assert(a@.writers[id] == a.write_connections@[id]@);
        assert(b@.writers[id] == b.write_connections@[id]@);
    }
}

proof fn lemma_joined<R, W>(
    before: Server<R, W>,
    reader: R,
    writer: W,
    id: u32,
    after: Server<R, W>,
)
    requires
        after@ == before@.joined(reader, writer, id),
    ensures
        newly_connected(after, reader, writer, id),
        forall|other: u32| other != id ==> #[trigger] same_client(before, after, other),
{
    super::law_greeted_first(before@, reader, writer, id);
    assert(after@.readers.contains_key(id));
    assert(after@.writers.contains_key(id));
    assert(after@.readers[id] == after.read_connections@[id]@);
    assert(after@.writers[id] == after.write_connections@[id]@);
    assert forall|other: u32| other != id implies #[trigger] same_client(before, after, other) by {
        lemma_same_client(before, after, other);
    }
}

proof fn lemma_forwards<R, W>(before: Server<R, W>, from: u32, after: Server<R, W>)
    requires
        before.read_connections@.contains_key(from),
        after@ == before@.delivered(from),
    ensures
        forwards(before, from, after),
{
    assert(before@.readers[from] == before.read_connections@[from]@);
    match parse(unread(before.read_connections@[from].buffer)) {
        None => {
            assert forall|id: u32| #[trigger] same_client(before, after, id) by {
                lemma_same_client(before, after, id);
            }
        },
        Some((dest, payload, rest)) => {
            assert(after@.readers.contains_key(from));
            assert(after@.readers[from] == after.read_connections@[from]@);
            if before.write_connections@.contains_key(dest) {
                assert(before@.writers[dest] == before.write_connections@[dest]@);
                assert(after@.writers.contains_key(dest));
                assert(after@.writers[dest] == after.write_connections@[dest]@);
                law_push_appends(contents(before.write_connections@[dest].buffers@), payload);
            }
            assert forall|id: u32|
                {
                    &&& #[trigger] after.read_connections@.contains_key(id)
                        == before.read_connections@.contains_key(id)
                    &&& before.read_connections@.contains_key(id) ==> {
                        &&& after.read_connections@[id].reader
                            == before.read_connections@[id].reader
                        &&& after.read_connections@[id].id == before.read_connections@[id].id
                        &&& id != from ==> unread(after.read_connections@[id].buffer) == unread(
                            before.read_connections@[id].buffer,
                        )
                    }
                } by {
                assert(after@.readers.contains_key(id) == before@.readers.contains_key(id));
                if before.read_connections@.contains_key(id) {
                    assert(after@.readers[id] == after.read_connections@[id]@);
                    assert(before@.readers[id] == before.read_connections@[id]@);
                }
            }
            assert forall|id: u32|
                {
                    &&& #[trigger] after.write_connections@.contains_key(id)
                        == before.write_connections@.contains_key(id)
                    &&& before.write_connections@.contains_key(id) ==> {
                        &&& after.write_connections@[id].writer
                            == before.write_connections@[id].writer
                        &&& after.write_connections@[id].id == before.write_connections@[id].id
                        &&& id != dest ==> contents(after.write_connections@[id].buffers@)
                            == contents(before.write_connections@[id].buffers@)
                    }
                } by {
                assert(after@.writers.contains_key(id) == before@.writers.contains_key(id));
                if before.write_connections@.contains_key(id) {
                    assert(after@.writers[id] == after.write_connections@[id]@);
                    assert(before@.writers[id] == before.write_connections@[id]@);
                }
            }
        },
    }
}

/// Nobody is connected to a new server.
pub proof fn law_new_server<R, W>(server: Server<R, W>)
    requires
        call_ensures(Server::<R, W>::new, (), server),
    ensures
        forall|id: u32| !(#[trigger] server.read_connections@.contains_key(id)),
        forall|id: u32| !(#[trigger] server.write_connections@.contains_key(id)),
{
    assert forall|id: u32| !(#[trigger] server.read_connections@.contains_key(id)) by {
        assert(!server@.readers.contains_key(id));
    }
    assert forall|id: u32| !(#[trigger] server.write_connections@.contains_key(id)) by {
        assert(!server@.writers.contains_key(id));
    }
}

/// As soon as anyone is connected, the race is run among everyone, however many they are; the
/// listener alone is waited for only while nobody is.
pub proof fn law_everyone_races<R, W>(server: &Server<R, W>, contest: Contest)
    requires
        call_ensures(Server::<R, W>::next_event, (server,), contest),
    ensures
        contest == Contest::Everyone <==> exists|id: u32|
            server.read_connections@.contains_key(id),
{
    assert(server@.readers.dom() =~= server.read_connections@.dom());
    if exists|id: u32| server.read_connections@.contains_key(id) {
        let id = choose|id: u32| server.read_connections@.contains_key(id);
        assert(server@.readers.contains_key(id));
        assert(server@.readers.dom().contains(id));
    } else {
        assert(server@.readers =~= Map::empty());
    }
}

/// A client that joins is connected, whoever else is, and is owed its ID; everyone else is as
/// before.
pub proof fn law_join_connects<R, W>(server: &mut Server<R, W>, reader: R, writer: W, id: u32)
    requires
        call_ensures(Server::<R, W>::join, (server, reader, writer, id), ()),
    ensures
        newly_connected(*final(server), reader, writer, id),
        forall|other: u32|
            other != id ==> #[trigger] same_client(*old(server), *final(server), other),
{
    lemma_joined(*old(server), reader, writer, id, *final(server));
}

/// A client that is accepted is connected under an ID that was drawn for it.
pub proof fn law_accept_connects<R, W>(server: &mut Server<R, W>, reader: R, writer: W, id: u32)
    requires
        call_ensures(Server::<R, W>::accept, (server, reader, writer), id),
    ensures
        drawn(id),
        newly_connected(*final(server), reader, writer, id),
        forall|other: u32|
            other != id ==> #[trigger] same_client(*old(server), *final(server), other),
{
    lemma_joined(*old(server), reader, writer, id, *final(server));
}

/// What a client sent reaches whom it names.
pub proof fn law_deliver_forwards<R, W>(server: &mut Server<R, W>, from: u32, taken: bool)
    requires
        call_ensures(Server::<R, W>::deliver, (server, from), taken),
        old(server).read_connections@.contains_key(from),
    ensures
        forwards(*old(server), from, *final(server)),
        taken <==> exists|i: int|
            4 <= i < unread(old(server).read_connections@[from].buffer).len() && unread(
                old(server).read_connections@[from].buffer,
            )[i] == 0,
{
    assert(old(server)@.readers[from] == old(server).read_connections@[from]@);
    law_message_in_bytes(unread(old(server).read_connections@[from].buffer));
    lemma_forwards(*old(server), from, *final(server));
}

/// Whoever wins a race by connecting is connected, however many are connected already: under
/// an ID that was drawn for it, with the stream that was accepted, and owed its ID. Everyone
/// else is as before.
pub proof fn law_accepted_is_connected<R, W, E>(
    server: &mut Server<R, W>,
    reader: R,
    writer: W,
    step: Step<E>,
)
    requires
        call_ensures(
            Server::<R, W>::handle_connections::<E>,
            (server, Ok::<Event<R, W>, (E, u32)>(Event::Connection(reader, writer))),
            step,
        ),
    ensures
        exists|id: u32|
            {
                &&& drawn(id)
                &&& #[trigger] newly_connected(*final(server), reader, writer, id)
                &&& forall|other: u32|
                    other != id ==> #[trigger] same_client(*old(server), *final(server), other)
            },
        step.failed is None,
        !step.again,
{
    let id = choose|id: u32|
        drawn(id) && final(server)@ == #[trigger] old(server)@.joined(reader, writer, id);
    lemma_joined(*old(server), reader, writer, id, *final(server));
}

/// What was read reaches whom it names, and the event is asked for again exactly when a
/// message was taken.
pub proof fn law_read_is_forwarded<R, W, E>(server: &mut Server<R, W>, from: u32, step: Step<E>)
    requires
        call_ensures(
            Server::<R, W>::handle_connections::<E>,
            (server, Ok::<Event<R, W>, (E, u32)>(Event::Read(from))),
            step,
        ),
        old(server).read_connections@.contains_key(from),
    ensures
        forwards(*old(server), from, *final(server)),
        step.again <==> exists|i: int|
            4 <= i < unread(old(server).read_connections@[from].buffer).len() && unread(
                old(server).read_connections@[from].buffer,
            )[i] == 0,
        step.again ==> unread(final(server).read_connections@[from].buffer).len() < unread(
            old(server).read_connections@[from].buffer,
        ).len(),
        step.failed is None,
{
    assert(old(server)@.readers[from] == old(server).read_connections@[from]@);
    law_message_in_bytes(unread(old(server).read_connections@[from].buffer));
    law_parsed_is_encoded(unread(old(server).read_connections@[from].buffer));
    lemma_forwards(*old(server), from, *final(server));
}

/// A client whose stream failed is gone with both halves, its error is reported, and everyone
/// else is as before.
pub proof fn law_failed_is_gone<R, W, E>(
    server: &mut Server<R, W>,
    error: E,
    id: u32,
    step: Step<E>,
)
    requires
        call_ensures(
            Server::<R, W>::handle_connections::<E>,
            (server, Err::<Event<R, W>, (E, u32)>((error, id))),
            step,
        ),
    ensures
        !final(server).read_connections@.contains_key(id),
        !final(server).write_connections@.contains_key(id),
        forall|other: u32|
            other != id ==> #[trigger] same_client(*old(server), *final(server), other),
        step.failed == Some(error),
        !step.again,
{
    assert(!final(server)@.readers.contains_key(id));
    assert(!final(server)@.writers.contains_key(id));
    assert forall|other: u32| other != id implies #[trigger] same_client(
        *old(server),
        *final(server),
        other,
    ) by {
        lemma_same_client(*old(server), *final(server), other);
    }
}

} // verus!
