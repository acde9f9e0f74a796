//! What a caller can count on of each function, in terms of what is read, told and
//! written.

use super::{client_dispatcher, ClientAction, ClientEvent, Connection, DispatchAction};
use super::{Dispatcher, Message, Reply};
use crate::buffers::{content, unread};
use crate::identity::drawn;
use crate::message::{law_message_in_bytes, terminated};
use crate::wire::network_bytes;
use bytes::Bytes;
use vstd::prelude::*;

verus! {

/// A client that connects has the ID that was drawn for it, and the dispatcher is told of
/// it under that ID, with what is written to.
pub proof fn law_open_draws<W>(write: W, opened: (Connection, Message<W>))
    requires
        call_ensures(Connection::open::<W>, (write,), opened),
    ensures
        drawn(opened.0.id),
        opened.1 == Message::<W>::New(opened.0.id, write),
        unread(opened.0.buffer).len() == 0,
{
}

/// A client under a given ID has that ID, and the dispatcher is told of it under it.
pub proof fn law_with_id<W>(id: u32, write: W, opened: (Connection, Message<W>))
    requires
        call_ensures(Connection::with_id::<W>, (id, write), opened),
    ensures
        opened.0.id == id,
        opened.1 == Message::<W>::New(id, write),
        unread(opened.0.buffer).len() == 0,
{
}

/// A whole message is told of first, whatever came of the read: to whom it is, and its
/// bytes after the first four up to the first null byte, which are gone from the buffer.
pub proof fn law_whole_message_is_told<W, E>(
    connection: &mut Connection,
    outcome: Result<usize, E>,
    reply: Reply<W>,
)
    requires
        call_ensures(Connection::handle_connection::<W, E>, (connection, outcome), reply),
        terminated(unread(old(connection).buffer)),
    ensures
        final(connection).id == old(connection).id,
        match reply {
            Reply::Tell(Message::Send(dest, bytes)) => {
                let sent = unread(old(connection).buffer);
                let told = content(bytes);
                &&& sent[0] * 0x100_0000 + sent[1] * 0x1_0000 + sent[2] * 0x100 + sent[3] == dest
                &&& told + unread(final(connection).buffer) == sent.skip(4)
                &&& told.len() > 0
                &&& told[told.len() - 1] == 0
                &&& forall|i: int| 0 <= i < told.len() - 1 ==> told[i] != 0
            },
            _ => false,
        },
{
    law_message_in_bytes(unread(old(connection).buffer));
}

/// A read of any positive number of bytes does not end the connection: where no whole
/// message is left, the task reads on, with all that the client sent still there.
pub proof fn law_bytes_keep_the_connection<W, E>(
    connection: &mut Connection,
    n: usize,
    reply: Reply<W>,
)
    requires
        call_ensures(
            Connection::handle_connection::<W, E>,
            (connection, Ok::<usize, E>(n)),
            reply,
        ),
        n > 0,
    ensures
        !(reply is Stop),
        reply is Read <==> !terminated(unread(old(connection).buffer)),
        reply is Read ==> unread(final(connection).buffer) == unread(old(connection).buffer),
        final(connection).id == old(connection).id,
{
    law_message_in_bytes(unread(old(connection).buffer));
}

/// The end of the stream, and every error, end the connection once no whole message is
/// left: the dispatcher is told that the client is gone, under its own ID.
pub proof fn law_end_and_errors_disconnect<W, E>(
    connection: &mut Connection,
    outcome: Result<usize, E>,
    reply: Reply<W>,
)
    requires
        call_ensures(Connection::handle_connection::<W, E>, (connection, outcome), reply),
        match outcome {
            Ok(n) => n == 0,
            Err(_) => true,
        },
    ensures
        !(reply is Read),
        reply is Stop <==> !terminated(unread(old(connection).buffer)),
        reply matches Reply::Stop(message) ==> message == Message::<W>::Disconnect(
            old(connection).id,
        ),
        final(connection).id == old(connection).id,
{
    law_message_in_bytes(unread(old(connection).buffer));
}

/// A writing task is started for every client that is new, however many there are: with
/// what is written to, and with the client's ID as the first bytes. Once it is connected,
/// the dispatcher knows it under that ID, and everyone else as before.
pub proof fn law_new_client_is_connected<T, H, W>(
    dispatcher: &mut Dispatcher<T, H>,
    id: u32,
    writer: W,
    action: DispatchAction<W, H>,
)
    requires
        call_ensures(
            Dispatcher::<T, H>::central_dispatcher::<W>,
            (dispatcher, Some(Message::New(id, writer))),
            action,
        ),
    ensures
        match action {
            DispatchAction::Spawn(new, write, first) => {
                &&& new == id
                &&& write == writer
                &&& content(first) == network_bytes(id)
            },
            _ => false,
        },
        final(dispatcher).connections@ == old(dispatcher).connections@,
{
}

/// The dispatcher knows a client from when it is connected on, and everyone else as before.
pub proof fn law_connect_remembers<T, H>(
    dispatcher: &mut Dispatcher<T, H>,
    id: u32,
    tx: T,
    handle: H,
)
    requires
        call_ensures(Dispatcher::<T, H>::connect, (dispatcher, id, tx, handle), ()),
    ensures
        final(dispatcher).connections@.contains_key(id),
        final(dispatcher).connections@[id] == (tx, handle),
        final(dispatcher).connections@.remove(id) == old(dispatcher).connections@.remove(id),
{
    assert(final(dispatcher).connections@.remove(id) =~= old(dispatcher).connections@.remove(id));
}

/// Bytes for a client go to its writing task exactly when the client is connected, whatever
/// they are and however many, and nobody comes or goes.
pub proof fn law_bytes_reach_the_connected<T, H, W>(
    dispatcher: &mut Dispatcher<T, H>,
    id: u32,
    bytes: Bytes,
    action: DispatchAction<W, H>,
)
    requires
        call_ensures(
            Dispatcher::<T, H>::central_dispatcher::<W>,
            (dispatcher, Some(Message::Send(id, bytes))),
            action,
        ),
    ensures
        action is Forward <==> old(dispatcher).connections@.contains_key(id),
        action matches DispatchAction::Forward(to, handed) ==> to == id && content(handed)
            == content(bytes),
        !(action is Forward) ==> action is Receive,
        final(dispatcher).connections@ == old(dispatcher).connections@,
{
}

/// A client that is gone is forgotten and its own writing task stopped, and nobody else's.
pub proof fn law_gone_is_forgotten<T, H, W>(
    dispatcher: &mut Dispatcher<T, H>,
    id: u32,
    action: DispatchAction<W, H>,
)
    requires
        call_ensures(
            Dispatcher::<T, H>::central_dispatcher::<W>,
            (dispatcher, Some(Message::Disconnect(id))),
            action,
        ),
    ensures
        action is Abort <==> old(dispatcher).connections@.contains_key(id),
        action matches DispatchAction::Abort(handle) ==> handle
            == old(dispatcher).connections@[id].1,
        !(action is Abort) ==> action is Receive,
        !final(dispatcher).connections@.contains_key(id),
        forall|other: u32|
            other != id ==> {
                &&& #[trigger] final(dispatcher).connections@.contains_key(other)
                    == old(dispatcher).connections@.contains_key(other)
                &&& final(dispatcher).connections@.contains_key(other) ==> final(
                    dispatcher
                ).connections@[other] == old(dispatcher).connections@[other]
            },
{
}

/// The dispatcher stops when there are no more messages, and only then.
pub proof fn law_stops_at_the_end<T, H, W>(
    dispatcher: &mut Dispatcher<T, H>,
    message: Option<Message<W>>,
    action: DispatchAction<W, H>,
)
    requires
        call_ensures(Dispatcher::<T, H>::central_dispatcher::<W>, (dispatcher, message), action),
    ensures
        action is Stop <==> message is None,
        message is None ==> final(dispatcher).connections@ == old(dispatcher).connections@,
{
}

/// Nobody is connected at first.
pub proof fn law_new_dispatcher<T, H>(dispatcher: Dispatcher<T, H>)
    requires
        call_ensures(Dispatcher::<T, H>::new, (), dispatcher),
    ensures
        forall|id: u32| !(#[trigger] dispatcher.connections@.contains_key(id)),
{
}

/// A writing task writes all that it receives, whatever it is, waits for more after every
/// write that succeeded, and stops after one that failed, with its error, and only then.
pub proof fn law_writing_task_goes_on<E>(event: ClientEvent<E>, action: ClientAction<E>)
    requires
        call_ensures(client_dispatcher::<E>, (event,), action),
    ensures
        action is WriteAll <==> event is Received,
        event matches ClientEvent::Received(bytes) ==> action == ClientAction::<E>::WriteAll(bytes),
        action is Stop <==> event is Wrote && event->Wrote_0 is Err,
        event matches ClientEvent::Wrote(Err(error)) ==> action == ClientAction::<E>::Stop(error),
{
}

} // verus!
