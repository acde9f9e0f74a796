use bytes::{Buf, Bytes};
use message_router::poll::Contest;
use message_router::race_zero_copy::{
    Event, ReadSocket, SendAction, SendEvent, Server, WriteSocket,
};

type TestServer = Server<&'static str, Vec<u8>>;

const INT_MSG1: &str = "hello, number 2\0";
const INT_MSG2: &str = "hello back, number 1\0";

/// Writes whatever the socket has to write, at most `chunk` bytes at a time, and
/// returns all that was ever written.
fn drain(socket: &mut WriteSocket<Vec<u8>>, chunk: usize) -> Vec<u8> {
    let mut action = socket.advance_send::<()>(SendEvent::Begin);
    loop {
        action = match action {
            SendAction::WaitForever => return socket.writer.clone(),
            SendAction::WriteFront => {
                let (front, writer) = socket.front();
                let front = front.unwrap();
                while front.has_remaining() {
                    let n = chunk.min(front.len());
                    writer.extend_from_slice(&front[..n]);
                    front.advance(n);
                }
                socket.advance_send(SendEvent::Written(Ok(())))
            }
            SendAction::Fail(_) => panic!("nothing failed"),
        };
    }
}

fn written(server: &mut TestServer, id: u32) -> Vec<u8> {
    drain(server.write_connections.get_mut(&id).unwrap(), 3)
}

/// Has the client send the bytes, and the race end with it.
fn read(server: &mut TestServer, id: u32, bytes: &[u8]) {
    let socket = server.read_connections.get_mut(&id).unwrap();
    socket.buffer.extend_from_slice(bytes);
    let event = socket.read::<Vec<u8>, ()>(Ok(bytes.len()));
    let mut step = server.handle_connections(event);
    while step.again {
        step = server.handle_connections(Ok(Event::Read(id)));
    }
    assert!(step.failed.is_none());
}

fn message(dest: u32, body: &str) -> Vec<u8> {
    let mut bytes = dest.to_be_bytes().to_vec();
    bytes.extend_from_slice(body.as_bytes());
    bytes
}

#[test]
fn racing_without_copies_works() {
    let mut server = TestServer::new();
    assert_eq!(server.next_event(), Contest::Listener);
    let mut ids: Vec<u32> = Vec::new();
    for stream in ["first", "second"] {
        let event: Result<_, ((), u32)> = Ok(Event::Connection(stream, Vec::new()));
        let step = server.handle_connections(event);
        assert!(step.failed.is_none());
        assert!(!step.again);
        assert_eq!(server.next_event(), Contest::Everyone);
        let id = *server
            .read_connections
            .keys()
            .find(|id| !ids.contains(*id))
            .unwrap();
        assert_eq!(server.read_connections[&id].reader, stream);
        assert_eq!(server.read_connections[&id].id, id);
        assert_eq!(server.write_connections[&id].id, id);
        ids.push(id);
    }
    let (id1, id2) = (ids[0], ids[1]);
    assert_eq!(written(&mut server, id1), id1.to_be_bytes());
    assert_eq!(written(&mut server, id2), id2.to_be_bytes());

    read(&mut server, id1, &message(id2, INT_MSG1));
    assert_eq!(&written(&mut server, id2)[4..], INT_MSG1.as_bytes());

    read(&mut server, id2, &message(id1, INT_MSG2));
    assert_eq!(&written(&mut server, id1)[4..], INT_MSG2.as_bytes());
    assert_eq!(written(&mut server, id2).len(), 4 + INT_MSG1.len());
}

#[test]
fn a_reader_reports_under_its_id() {
    let socket = ReadSocket::new("stream", 9);
    assert!(socket.buffer.is_empty());
    assert!(matches!(
        socket.read::<Vec<u8>, &str>(Ok(5)),
        Ok(Event::Read(9))
    ));
    assert!(matches!(
        socket.read::<Vec<u8>, &str>(Err("reset")),
        Err(("reset", 9))
    ));
}

#[test]
fn a_writer_writes_buffer_by_buffer() {
    let mut socket = WriteSocket::new(Vec::new(), 4);
    assert!(socket.front().0.is_none());
    assert!(matches!(
        socket.advance_send::<()>(SendEvent::Begin),
        SendAction::WaitForever
    ));
    socket.send(Bytes::from_static(b"abc"));
    socket.send(Bytes::from_static(b"de"));
    assert!(matches!(
        socket.advance_send::<()>(SendEvent::Begin),
        SendAction::WriteFront
    ));
    socket.front().0.unwrap().advance(1);
    assert_eq!(&socket.buffers[0][..], b"bc");
    assert!(matches!(
        socket.advance_send::<()>(SendEvent::Begin),
        SendAction::WriteFront
    ));
    assert_eq!(drain(&mut socket, 1), b"bcde");
}

#[test]
fn a_writer_fails_under_its_id() {
    let mut socket = WriteSocket::new("writer", 4);
    socket.send(Bytes::from_static(b"abc"));
    assert!(matches!(
        socket.advance_send(SendEvent::Written(Err("broken"))),
        SendAction::Fail(("broken", 4))
    ));
    assert_eq!(socket.buffers.len(), 1);
}

#[test]
fn a_client_whose_stream_failed_is_gone() {
    let mut server = TestServer::new();
    server.join("one", Vec::new(), 1);
    server.join("two", Vec::new(), 2);
    let step = server.handle_connections(Err(("broken", 1)));
    assert_eq!(step.failed, Some("broken"));
    assert!(!step.again);
    assert!(!server.read_connections.contains_key(&1));
    assert!(!server.write_connections.contains_key(&1));
    assert_eq!(written(&mut server, 2), [0, 0, 0, 2]);
    assert_eq!(server.handle_connections(Err(("again", 1))).failed, Some("again"));
    assert_eq!(server.read_connections.len(), 1);
    assert_eq!(server.handle_connections(Err(("last", 2))).failed, Some("last"));
    assert_eq!(server.next_event(), Contest::Listener);
}

#[test]
fn racing_delivers_each_message_to_its_destination_in_order() {
    let mut server = TestServer::new();
    server.join("one", Vec::new(), 1);
    server.join("two", Vec::new(), 2);
    let mut mail = message(2, "a\0");
    mail.extend_from_slice(&message(1, "me\0"));
    mail.extend_from_slice(&message(7, "nobody\0"));
    mail.extend_from_slice(&message(2, "b\0"));
    mail.extend_from_slice(&message(2, "half"));
    server.read_connections.get_mut(&1).unwrap().buffer.extend_from_slice(&mail);
    let event: Result<_, ((), u32)> = Ok(Event::Read(1));
    assert!(server.handle_connections(event).again);
    assert_eq!(written(&mut server, 2), b"\0\0\0\x02a\0");
    assert!(server.deliver(1));
    assert!(server.deliver(1));
    assert!(server.deliver(1));
    assert!(!server.deliver(1));
    let event: Result<_, ((), u32)> = Ok(Event::Read(1));
    assert!(!server.handle_connections(event).again);
    assert_eq!(written(&mut server, 1), b"\0\0\0\x01me\0");
    assert_eq!(written(&mut server, 2), b"\0\0\0\x02a\0b\0");
    assert_eq!(&server.read_connections[&1].buffer[..], &message(2, "half")[..]);
}

#[test]
fn racing_accepts_under_random_ids() {
    let mut server = TestServer::new();
    let ids: Vec<u32> = (0..8).map(|_| server.accept("stream", Vec::new())).collect();
    assert!(ids.iter().any(|id| *id != ids[0]));
    for id in ids {
        assert_eq!(written(&mut server, id), id.to_be_bytes());
    }
}

/// Writes `n` bytes of the first buffer and gives up, as a write does that loses a race.
fn write_some(server: &mut TestServer, id: u32, n: usize) {
    let socket = server.write_connections.get_mut(&id).unwrap();
    if let SendAction::WriteFront = socket.advance_send::<()>(SendEvent::Begin) {
        let (front, writer) = socket.front();
        let front = front.unwrap();
        let n = n.min(front.len());
        writer.extend_from_slice(&front[..n]);
        front.advance(n);
    }
}

#[test]
fn a_whole_run_sends_each_client_its_id_and_its_mail() {
    let mut server = TestServer::new();
    let ids = [0x0102_0304, 5, 0xffff_0000];
    let mut expected: Vec<Vec<u8>> = Vec::new();
    for id in ids {
        server.join("stream", Vec::new(), id);
        expected.push(id.to_be_bytes().to_vec());
    }
    for round in 0..30_usize {
        let (from, to) = (round % 3, (round / 2) % 3);
        let body = format!("message {round}\0");
        expected[to].extend_from_slice(body.as_bytes());
        let bytes = message(ids[to], &body);
        let cut = round % bytes.len();
        read(&mut server, ids[from], &bytes[..cut]);
        write_some(&mut server, ids[to], round % 7);
        read(&mut server, ids[from], &bytes[cut..]);
        write_some(&mut server, ids[from], round % 4);
        assert!(server.read_connections[&ids[from]].buffer.is_empty());
    }
    for (id, mail) in ids.into_iter().zip(expected) {
        assert_eq!(written(&mut server, id), mail);
    }
}

#[test]
fn a_write_that_lost_a_race_goes_on_where_it_stopped() {
    let mut server = TestServer::new();
    server.join("stream", Vec::new(), 9);
    let socket = server.write_connections.get_mut(&9).unwrap();
    socket.send(Bytes::from_static(b"abcdef"));
    for n in [1, 0, 3, 2, 1, 4] {
        write_some(&mut server, 9, n);
        read(&mut server, 9, b"");
    }
    assert_eq!(written(&mut server, 9), b"\0\0\0\x09abcdef");
}
