//! What a caller can count on of each function, in terms of what is read and written.

use super::{Action, Connection, Server};
use crate::buffers::{content, unread};
use crate::identity::drawn;
use crate::message::{law_message_in_bytes, parse, terminated};
use vstd::prelude::*;

verus! {

/// A client that connects has the ID that was drawn for it, and nothing was read from it.
pub proof fn law_open_draws(connection: Connection)
    requires
        call_ensures(Connection::open, (), connection),
    ensures
        drawn(connection.id),
        unread(connection.buffer).len() == 0,
{
}

/// A client under a given ID has that ID, and nothing was read from it.
pub proof fn law_with_id(id: u32, connection: Connection)
    requires
        call_ensures(Connection::with_id, (id,), connection),
    ensures
        connection.id == id,
        unread(connection.buffer).len() == 0,
{
}

/// Nobody is connected to a new server.
pub proof fn law_new_server<S>(server: Server<S>)
    requires
        call_ensures(Server::<S>::new, (), server),
    ensures
        forall|id: u32| !(#[trigger] server.connections@.contains_key(id)),
{
}

/// A client that joins is in the table under its ID, with its own stream, whoever else is
/// there, and everyone else stays as they are.
pub proof fn law_join_connects<S>(server: &mut Server<S>, connection: &Connection, socket: S)
    requires
        call_ensures(Server::<S>::join, (server, connection, socket), ()),
    ensures
        final(server).connections@.contains_key(connection.id),
        final(server).connections@[connection.id] == socket,
        forall|other: u32|
            other != connection.id ==> {
                &&& #[trigger] final(server).connections@.contains_key(other)
                    == old(server).connections@.contains_key(other)
                &&& final(server).connections@.contains_key(other) ==> final(
                    server
                ).connections@[other] == old(server).connections@[other]
            },
{
}

/// Any number of clients that connect one after the other, each under the ID that was drawn
/// for it, are all in the table afterwards, each with its own stream, as long as no draw
/// repeats.
pub proof fn law_all_who_connect_are_there<S>(
    tables: Seq<Map<u32, S>>,
    connections: Seq<Connection>,
    sockets: Seq<S>,
)
    requires
        tables.len() == connections.len() + 1,
        sockets.len() == connections.len(),
        forall|i: int|
            0 <= i < connections.len() ==> call_ensures(
                Connection::open,
                (),
                #[trigger] connections[i],
            ),
        forall|i: int|
            0 <= i < connections.len() ==> exists|server: &mut Server<S>|
                {
                    &&& #[trigger] call_ensures(
                        Server::<S>::join,
                        (server, &connections[i], sockets[i]),
                        (),
                    )
                    &&& server.connections@ == #[trigger] tables[i]
                    &&& final(server).connections@ == tables[i + 1]
                },
        forall|i: int, j: int|
            0 <= i < j < connections.len() ==> (#[trigger] connections[i]).id != (
            #[trigger] connections[j]).id,
    ensures
        forall|i: int|
            0 <= i < connections.len() ==> {
                &&& drawn((#[trigger] connections[i]).id)
                &&& tables.last().contains_key(connections[i].id)
                &&& tables.last()[connections[i].id] == sockets[i]
            },
        forall|id: u32|
            (#[trigger] tables[0].contains_key(id) && forall|i: int|
                0 <= i < connections.len() ==> (#[trigger] connections[i]).id != id) ==> {
                &&& tables.last().contains_key(id)
                &&& tables.last()[id] == tables[0][id]
            },
{
    assert forall|i: int| 0 <= i < connections.len() implies #[trigger] tables[i + 1]
        == tables[i].insert(connections[i].id, sockets[i]) by {
        assert(tables[i] == tables[i]);
    }
    assert forall|i: int| 0 <= i < connections.len() implies {
        &&& drawn((#[trigger] connections[i]).id)
        &&& tables.last().contains_key(connections[i].id)
        &&& tables.last()[connections[i].id] == sockets[i]
    } by {
        law_open_draws(connections[i]);
        lemma_stays(tables, connections, sockets, i + 1, tables.len() - 1, connections[i].id);
    }
    assert forall|id: u32|
        (#[trigger] tables[0].contains_key(id) && forall|i: int|
            0 <= i < connections.len() ==> (#[trigger] connections[i]).id != id) implies {
        &&& tables.last().contains_key(id)
        &&& tables.last()[id] == tables[0][id]
    } by {
        lemma_stays(tables, connections, sockets, 0, tables.len() - 1, id);
    }
}

proof fn lemma_stays<S>(
    tables: Seq<Map<u32, S>>,
    connections: Seq<Connection>,
    sockets: Seq<S>,
    i: int,
    n: int,
    id: u32,
)
    requires
        tables.len() == connections.len() + 1,
        0 <= i <= n < tables.len(),
        forall|k: int|
            0 <= k < connections.len() ==> #[trigger] tables[k + 1] == tables[k].insert(
                connections[k].id,
                sockets[k],
            ),
        forall|k: int| i <= k < connections.len() ==> (#[trigger] connections[k]).id != id,
        tables[i].contains_key(id),
    ensures
        tables[n].contains_key(id),
        tables[n][id] == tables[i][id],
    decreases n - i,
{
    if i < n {
        lemma_stays(tables, connections, sockets, i, n - 1, id);
        assert(tables[n - 1 + 1] == tables[n - 1].insert(connections[n - 1].id, sockets[n - 1]));
        assert(connections[n - 1].id != id);
    }
}

/// A whole message is taken first, whatever came of the read, off the front of what the
/// client sent. It is forwarded exactly when the client that its first four bytes name is
/// connected: its bytes after those, up to the first null byte. Nobody comes or goes.
pub proof fn law_whole_message_is_forwarded<S, E>(
    server: &mut Server<S>,
    connection: &mut Connection,
    outcome: Result<usize, E>,
    action: Action,
)
    requires
        call_ensures(
            Server::<S>::handle_connection::<E>,
            (server, connection, outcome),
            action,
        ),
        terminated(unread(old(connection).buffer)),
    ensures
        final(server).connections@ == old(server).connections@,
        final(connection).id == old(connection).id,
        exists|dest: u32|
            {
                let sent = unread(old(connection).buffer);
                &&& sent[0] * 0x100_0000 + sent[1] * 0x1_0000 + sent[2] * 0x100 + sent[3] == dest
                &&& action is Forward <==> #[trigger] old(server).connections@.contains_key(dest)
                &&& action matches Action::Forward(to, bytes) ==> {
                    let handed = content(bytes);
                    &&& to == dest
                    &&& handed + unread(final(connection).buffer) == sent.skip(4)
                    &&& handed.len() > 0
                    &&& handed[handed.len() - 1] == 0
                    &&& forall|i: int| 0 <= i < handed.len() - 1 ==> handed[i] != 0
                }
            },
        !(action is Forward) ==> action is Skip,
        unread(final(connection).buffer).len() + 5 <= unread(old(connection).buffer).len(),
        unread(final(connection).buffer) == unread(old(connection).buffer).skip(
            unread(old(connection).buffer).len() - unread(final(connection).buffer).len(),
        ),
{
    let sent = unread(old(connection).buffer);
    law_message_in_bytes(sent);
    let (dest, payload, rest) = parse(sent).unwrap();
    assert(old(server).connections@.contains_key(dest) || !old(server).connections@.contains_key(
        dest,
    ));
    assert(rest =~= sent.skip(4).skip(payload.len() as int));
    assert(sent.skip(4).skip(payload.len() as int) =~= sent.skip(sent.len() - rest.len()));
}

/// A read of any positive number of bytes does not end the connection: where no whole
/// message is left, the task reads on, with all that the client sent still there, and the
/// same clients are connected.
pub proof fn law_bytes_keep_the_connection<S, E>(
    server: &mut Server<S>,
    connection: &mut Connection,
    n: usize,
    action: Action,
)
    requires
        call_ensures(
            Server::<S>::handle_connection::<E>,
            (server, connection, Ok::<usize, E>(n)),
            action,
        ),
        n > 0,
    ensures
        !(action is Close),
        action is Read <==> !terminated(unread(old(connection).buffer)),
        action is Read ==> unread(final(connection).buffer) == unread(old(connection).buffer),
        final(server).connections@ == old(server).connections@,
        final(connection).id == old(connection).id,
{
    law_message_in_bytes(unread(old(connection).buffer));
}

/// The end of the stream, and every error, end the connection once no whole message is
/// left: the client is taken out of the table, and nobody else.
pub proof fn law_end_and_errors_close<S, E>(
    server: &mut Server<S>,
    connection: &mut Connection,
    outcome: Result<usize, E>,
    action: Action,
)
    requires
        call_ensures(
            Server::<S>::handle_connection::<E>,
            (server, connection, outcome),
            action,
        ),
        match outcome {
            Ok(n) => n == 0,
            Err(_) => true,
        },
    ensures
        !(action is Read),
        action is Close <==> !terminated(unread(old(connection).buffer)),
        action is Close ==> !final(server).connections@.contains_key(old(connection).id),
        forall|other: u32|
            other != old(connection).id ==> {
                &&& #[trigger] final(server).connections@.contains_key(other)
                    == old(server).connections@.contains_key(other)
                &&& final(server).connections@.contains_key(other) ==> final(
                    server
                ).connections@[other] == old(server).connections@[other]
            },
{
    law_message_in_bytes(unread(old(connection).buffer));
}

} // verus!
