use bytes::{Bytes, BytesMut};
use message_router::channel_per_writer::{
    client_dispatcher, ClientAction, ClientEvent, DispatchAction, Dispatcher, Message, Reply,
    CHANNEL_CAPACITY,
};
use message_router::identity::greeting;
use message_router::{channel_per_writer, mutex, naive, shared_socket};

const MSG1: &str = "hello, number 2\0";
const MSG2: &str = "hello back, number 1\0";

fn message(dest: u32, body: &str) -> Vec<u8> {
    let mut bytes = dest.to_be_bytes().to_vec();
    bytes.extend_from_slice(body.as_bytes());
    bytes
}

#[test]
fn channels_work() {
    let mut dispatcher: Dispatcher<&str, &str> = Dispatcher::new();
    let mut connections = Vec::new();
    for name in ["first", "second"] {
        let (connection, new) = channel_per_writer::Connection::open(name);
        match dispatcher.central_dispatcher(Some(new)) {
            DispatchAction::Spawn(id, writer, first) => {
                assert_eq!(id, connection.id);
                assert_eq!(writer, name);
                assert_eq!(&first[..], id.to_be_bytes());
                dispatcher.connect(id, name, name);
            }
            _ => panic!("a new client gets a writing task"),
        }
        connections.push(connection);
    }
    for (from, to, body) in [(0, 1, MSG1), (1, 0, MSG2)] {
        let dest = connections[to].id;
        let bytes = message(dest, body);
        connections[from].buffer.extend_from_slice(&bytes);
        let told = match connections[from].handle_connection::<&str, ()>(Ok(bytes.len())) {
            Reply::Tell(told) => told,
            _ => panic!("a message is handed to the dispatcher"),
        };
        assert!(connections[from].buffer.is_empty());
        match dispatcher.central_dispatcher(Some(told)) {
            DispatchAction::Forward(id, bytes) => {
                assert_eq!(id, dest);
                assert_eq!(&bytes[..], body.as_bytes());
            }
            _ => panic!("a message is forwarded"),
        }
    }
}

#[test]
fn a_channel_holds_a_hundred_messages() {
    assert_eq!(CHANNEL_CAPACITY, 100);
}

#[test]
fn a_reading_task_stops_with_its_client() {
    for outcome in [Ok(0), Err("reset")] {
        let (mut connection, _) = channel_per_writer::Connection::with_id(3, ());
        connection.buffer.extend_from_slice(&message(3, "half"));
        assert!(matches!(
            connection.handle_connection::<(), &str>(outcome),
            Reply::Stop(Message::Disconnect(3))
        ));
        assert_eq!(&connection.buffer[..], &message(3, "half")[..]);
    }
}

#[test]
fn every_message_of_a_read_is_told_before_the_end() {
    let sent = [0, 0, 0, 2, b'a', 0, 0, 0, 0, 3, b'b', 0];
    for outcome in [Ok(12), Ok(0), Err("reset")] {
        let (mut connection, _) = channel_per_writer::Connection::with_id(1, ());
        connection.buffer.extend_from_slice(&sent);
        for (dest, body) in [(2, b"a\0"), (3, b"b\0")] {
            match connection.handle_connection::<(), &str>(outcome) {
                Reply::Tell(Message::Send(to, bytes)) => {
                    assert_eq!(to, dest);
                    assert_eq!(&bytes[..], body);
                }
                _ => panic!("the message is whole"),
            }
        }
        match connection.handle_connection::<(), &str>(outcome) {
            Reply::Read => assert_eq!(outcome, Ok(12)),
            Reply::Stop(Message::Disconnect(1)) => assert_ne!(outcome, Ok(12)),
            _ => panic!("there is no other message"),
        }
        assert!(connection.buffer.is_empty());
    }
}

#[test]
fn a_writing_task_is_handed_what_came_while_its_client_was_there() {
    let mut dispatcher: Dispatcher<&str, &str> = Dispatcher::new();
    let mut handed: Vec<u8> = Vec::new();
    let told = [
        Message::Send(5, Bytes::from_static(b"early\0")),
        Message::New(5, ()),
        Message::Send(5, Bytes::from_static(b"a\0")),
        Message::Send(6, Bytes::from_static(b"other\0")),
        Message::Send(5, Bytes::from_static(b"b\0")),
        Message::Disconnect(5),
        Message::Send(5, Bytes::from_static(b"late\0")),
    ];
    for message in told {
        match dispatcher.central_dispatcher(Some(message)) {
            DispatchAction::Spawn(id, (), first) => {
                handed.extend_from_slice(&first);
                dispatcher.connect(id, "tx", "handle");
            }
            DispatchAction::Forward(5, bytes) => handed.extend_from_slice(&bytes),
            DispatchAction::Abort(handle) => assert_eq!(handle, "handle"),
            DispatchAction::Receive => {}
            _ => panic!("nothing else is asked for"),
        }
    }
    assert_eq!(handed, b"\0\0\0\x05a\0b\0");
    assert!(dispatcher.connections.is_empty());
}

#[test]
fn a_reading_task_waits_for_a_whole_message() {
    let (mut connection, new) = channel_per_writer::Connection::with_id(3, "writer");
    assert!(matches!(new, Message::New(3, "writer")));
    assert!(connection.buffer.is_empty());
    for byte in message(9, "piece") {
        connection.buffer.extend_from_slice(&[byte]);
        assert!(matches!(
            connection.handle_connection::<(), ()>(Ok(1)),
            Reply::Read
        ));
    }
    connection.buffer.extend_from_slice(b"\0");
    match connection.handle_connection::<(), ()>(Ok(1)) {
        Reply::Tell(Message::Send(9, bytes)) => assert_eq!(&bytes[..], b"piece\0"),
        _ => panic!("the message is whole"),
    }
}

#[test]
fn the_dispatcher_forgets_who_is_gone() {
    let mut dispatcher: Dispatcher<&str, &str> = Dispatcher::new();
    dispatcher.connect(1, "tx", "handle");
    dispatcher.connect(2, "other tx", "other handle");
    let gone: Option<Message<()>> = Some(Message::Disconnect(1));
    assert!(matches!(
        dispatcher.central_dispatcher(gone),
        DispatchAction::Abort("handle")
    ));
    let again: Option<Message<()>> = Some(Message::Disconnect(1));
    assert!(matches!(
        dispatcher.central_dispatcher(again),
        DispatchAction::Receive
    ));
    let late: Option<Message<()>> = Some(Message::Send(1, Bytes::from_static(b"late\0")));
    assert!(matches!(
        dispatcher.central_dispatcher(late),
        DispatchAction::Receive
    ));
    assert_eq!(dispatcher.connections.len(), 1);
    assert_eq!(dispatcher.connections[&2], ("other tx", "other handle"));
    let end: Option<Message<()>> = None;
    assert!(matches!(
        dispatcher.central_dispatcher(end),
        DispatchAction::Stop
    ));
}

#[test]
fn a_writing_task_writes_until_a_write_fails() {
    assert!(matches!(
        client_dispatcher::<()>(ClientEvent::Begin),
        ClientAction::Receive
    ));
    match client_dispatcher::<()>(ClientEvent::Received(Bytes::from_static(b"bytes"))) {
        ClientAction::WriteAll(bytes) => assert_eq!(&bytes[..], b"bytes"),
        _ => panic!("what was received is written"),
    }
    assert!(matches!(
        client_dispatcher::<()>(ClientEvent::Wrote(Ok(()))),
        ClientAction::Receive
    ));
    assert!(matches!(
        client_dispatcher(ClientEvent::Wrote(Err("broken"))),
        ClientAction::Stop("broken")
    ));
}

#[test]
fn a_shared_table_works() {
    let mut server = naive::Server::new();
    let mut connections = Vec::new();
    for name in ["first", "second"] {
        let connection = naive::Connection::open();
        server.join(&connection, name);
        assert_eq!(server.connections[&connection.id], name);
        connections.push(connection);
    }
    for (from, to, body) in [(0, 1, MSG1), (1, 0, MSG2)] {
        let dest = connections[to].id;
        let bytes = message(dest, body);
        connections[from].buffer.extend_from_slice(&bytes);
        match server.handle_connection::<()>(&mut connections[from], Ok(bytes.len())) {
            naive::Action::Forward(id, bytes) => {
                assert_eq!(id, dest);
                assert_eq!(&bytes[..], body.as_bytes());
            }
            _ => panic!("a message is forwarded"),
        }
        assert!(connections[from].buffer.is_empty());
    }
}

#[test]
fn a_shared_table_forgets_who_is_gone() {
    let mut server = naive::Server::new();
    let mut one = naive::Connection::with_id(1);
    let mut two = naive::Connection::with_id(2);
    server.join(&one, "one");
    server.join(&two, "two");
    one.buffer.extend_from_slice(&message(2, "hal"));
    assert!(matches!(
        server.handle_connection::<()>(&mut one, Ok(7)),
        naive::Action::Read
    ));
    assert!(matches!(
        server.handle_connection(&mut one, Err("reset")),
        naive::Action::Close
    ));
    assert!(!server.connections.contains_key(&1));
    two.buffer.extend_from_slice(&message(1, "late\0"));
    two.buffer.extend_from_slice(&message(2, "me\0"));
    assert!(matches!(
        server.handle_connection::<()>(&mut two, Ok(0)),
        naive::Action::Skip
    ));
    match server.handle_connection::<()>(&mut two, Ok(0)) {
        naive::Action::Forward(2, bytes) => assert_eq!(&bytes[..], b"me\0"),
        _ => panic!("every message is forwarded before the end"),
    }
    assert!(two.buffer.is_empty());
    assert!(matches!(
        server.handle_connection::<()>(&mut two, Ok(0)),
        naive::Action::Close
    ));
    assert!(server.connections.is_empty());
}

#[test]
fn a_locked_list_works() {
    let mut server: mutex::Server<Vec<u8>> = mutex::Server::new();
    for id in 0..2 {
        assert_eq!(server.next_id(), id);
        server.join(Vec::new());
    }
    for (dest, body) in [(1, MSG1), (0, MSG2)] {
        let mut buffer = BytesMut::from(&message(dest, body)[..]);
        let n = buffer.len();
        let (to, bytes) = server.handle_connection(&mut buffer, n).unwrap();
        assert_eq!(to, dest);
        assert!(buffer.is_empty());
        server.writer(to).extend_from_slice(&bytes);
    }
    assert_eq!(server.connections, [MSG2.as_bytes(), MSG1.as_bytes()]);
    let mut buffer = BytesMut::from(&b"\0\0\0\0half"[..]);
    assert_eq!(server.handle_connection(&mut buffer, 8), None);
    assert_eq!(&buffer[..], b"\0\0\0\0half");
}

#[test]
fn each_of_many_clients_is_told_its_place() {
    let mut server = mutex::Server::new();
    let mut router = shared_socket::Router::new();
    for place in 0..500 {
        assert_eq!(server.next_id(), place);
        server.join(place);
        assert_eq!(router.join(place), place);
    }
    for place in 0..500 {
        assert_eq!(*server.writer(place), place);
        assert_eq!(*router.socket(place), place);
    }
}

#[test]
fn locked_streams_work() {
    let mut router = shared_socket::Router::new();
    assert_eq!(router.join("first"), 0);
    assert_eq!(router.join("second"), 1);
    for (dest, name, body) in [(1, "second", MSG1), (0, "first", MSG2)] {
        let mut buffer = BytesMut::from(&message(dest, body)[..]);
        buffer.extend_from_slice(b"\0");
        let n = buffer.len();
        let (to, bytes) = router.handle_connection(&mut buffer, n).unwrap();
        assert_eq!(*router.socket(to), name);
        assert_eq!(&bytes[..], body.as_bytes());
        assert_eq!(router.handle_connection(&mut buffer, 1), None);
        assert_eq!(&buffer[..], b"\0");
    }
}

/// The bytes that each of three clients sends in turn, and what each is handed in all.
fn exchange(ids: [u32; 3]) -> (Vec<(usize, Vec<u8>)>, Vec<Vec<u8>>) {
    let mut sent = Vec::new();
    let mut expected: Vec<Vec<u8>> = Vec::new();
    for id in ids {
        expected.push(greeting(id).to_vec());
    }
    for round in 0..30_usize {
        let (from, to) = (round % 3, (round / 2) % 3);
        let body = format!("message {round}\0");
        expected[to].extend_from_slice(body.as_bytes());
        let bytes = message(ids[to], &body);
        let cut = 1 + round % (bytes.len() - 1);
        sent.push((from, bytes[..cut].to_vec()));
        sent.push((from, bytes[cut..].to_vec()));
    }
    (sent, expected)
}

#[test]
fn a_whole_run_of_a_shared_table() {
    let ids = [7, 0x0102_0304, 9];
    let (sent, expected) = exchange(ids);
    let mut server = naive::Server::new();
    let mut connections = Vec::new();
    for id in ids {
        let connection = naive::Connection::with_id(id);
        server.join(&connection, greeting(id).to_vec());
        connections.push(connection);
    }
    for (from, bytes) in sent {
        let connection = &mut connections[from];
        connection.buffer.extend_from_slice(&bytes);
        let outcome: Result<usize, ()> = Ok(bytes.len());
        loop {
            match server.handle_connection(connection, outcome) {
                naive::Action::Forward(dest, bytes) => {
                    server.connections.get_mut(&dest).unwrap().extend_from_slice(&bytes);
                }
                naive::Action::Read => break,
                _ => panic!("everyone is there"),
            }
        }
    }
    for (id, mail) in ids.into_iter().zip(expected) {
        assert_eq!(server.connections[&id], mail);
    }
}

#[test]
fn a_whole_run_of_a_locked_list_and_of_locked_streams() {
    let ids = [0, 1, 2];
    let (sent, expected) = exchange(ids);
    let mut server: mutex::Server<Vec<u8>> = mutex::Server::new();
    let mut router = shared_socket::Router::new();
    let mut streams: Vec<Vec<u8>> = Vec::new();
    for _ in ids {
        let id = server.next_id();
        server.join(greeting(id).to_vec());
        streams.push(greeting(router.join(id as usize)).to_vec());
    }
    let mut buffers = [(); 3].map(|_| (BytesMut::new(), BytesMut::new()));
    for (from, bytes) in sent {
        let (locked, shared) = &mut buffers[from];
        locked.extend_from_slice(&bytes);
        shared.extend_from_slice(&bytes);
        while let Some((dest, m)) = server.handle_connection(locked, bytes.len()) {
            server.writer(dest).extend_from_slice(&m);
        }
        while let Some((dest, m)) = router.handle_connection(shared, bytes.len()) {
            streams[*router.socket(dest)].extend_from_slice(&m);
        }
    }
    assert_eq!(server.connections, expected);
    assert_eq!(streams, expected);
}

#[test]
fn a_whole_run_of_channels() {
    let ids = [7, 0x0102_0304, 9];
    let (sent, expected) = exchange(ids);
    let mut dispatcher: Dispatcher<usize, ()> = Dispatcher::new();
    let mut connections = Vec::new();
    let mut handed: Vec<Vec<u8>> = Vec::new();
    for id in ids {
        let (connection, new) = channel_per_writer::Connection::with_id(id, ());
        match dispatcher.central_dispatcher(Some(new)) {
            DispatchAction::Spawn(id, (), first) => {
                dispatcher.connect(id, handed.len(), ());
                handed.push(first.to_vec());
            }
            _ => panic!("a new client gets a writing task"),
        }
        connections.push(connection);
    }
    for (from, bytes) in sent {
        let connection = &mut connections[from];
        connection.buffer.extend_from_slice(&bytes);
        let outcome: Result<usize, ()> = Ok(bytes.len());
        while let Reply::Tell(told) = connection.handle_connection::<(), ()>(outcome) {
            match dispatcher.central_dispatcher(Some(told)) {
                DispatchAction::Forward(id, bytes) => {
                    handed[dispatcher.connections[&id].0].extend_from_slice(&bytes);
                }
                _ => panic!("everyone is there"),
            }
        }
    }
    assert_eq!(handed, expected);
}
