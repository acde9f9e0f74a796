use bytes::Buf;
use message_router::poll::Contest;
use message_router::race::{Event, ReadSocket, Router, SendAction, WriteSocket};

type TestRouter = Router<&'static str, Vec<u8>>;

const INT_MSG1: &str = "hello, number 2\0";
const INT_MSG2: &str = "hello back, number 1\0";

/// Writes whatever the socket has to write and returns all that was ever written.
fn drain(socket: &mut WriteSocket<Vec<u8>>) -> Vec<u8> {
    while socket.advance_send() == SendAction::WriteAll {
        socket.writer.extend_from_slice(&socket.buffer);
        socket.buffer.advance(socket.buffer.len());
    }
    socket.writer.clone()
}

fn read(router: &mut TestRouter, place: usize, bytes: &[u8]) {
    router.read_connections[place].buffer.extend_from_slice(bytes);
    while router.handle_connections(Event::Read(place)) {}
}

fn message(dest: u32, body: &str) -> Vec<u8> {
    let mut bytes = dest.to_be_bytes().to_vec();
    bytes.extend_from_slice(body.as_bytes());
    bytes
}

#[test]
fn racing_works() {
    let mut router = TestRouter::new();
    assert_eq!(router.contest(), Contest::Listener);
    for stream in ["first", "second"] {
        assert!(!router.handle_connections(Event::Connection(stream, Vec::new())));
        assert_eq!(router.contest(), Contest::Everyone);
    }
    assert_eq!(drain(&mut router.write_connections[0]), [0, 0, 0, 0]);
    assert_eq!(drain(&mut router.write_connections[1]), [0, 0, 0, 1]);
    assert_eq!(router.read_connections[1].reader, "second");

    read(&mut router, 0, &message(1, INT_MSG1));
    assert_eq!(&drain(&mut router.write_connections[1])[4..], INT_MSG1.as_bytes());

    read(&mut router, 1, &message(0, INT_MSG2));
    assert_eq!(&drain(&mut router.write_connections[0])[4..], INT_MSG2.as_bytes());
}

#[test]
fn a_new_reader_holds_nothing() {
    let socket = ReadSocket::new("stream");
    assert!(socket.buffer.is_empty());
    assert_eq!(socket.reader, "stream");
}

#[test]
fn a_writer_copies_what_it_is_sent() {
    let mut socket = WriteSocket::new(Vec::new());
    assert_eq!(socket.advance_send(), SendAction::WaitForever);
    socket.send(b"abc");
    socket.send(b"");
    socket.send(b"de");
    assert_eq!(socket.advance_send(), SendAction::WriteAll);
    socket.buffer.advance(1);
    assert_eq!(socket.advance_send(), SendAction::WriteAll);
    assert_eq!(drain(&mut socket), b"bcde");
    assert_eq!(socket.advance_send(), SendAction::WaitForever);
}

#[test]
fn racing_copies_each_message_to_its_destination_in_order() {
    let mut router = TestRouter::new();
    for _ in 0..300 {
        router.join("stream", Vec::new());
    }
    assert_eq!(drain(&mut router.write_connections[258]), [0, 0, 1, 2]);
    let mut mail = message(258, "a\0");
    mail.extend_from_slice(&message(0, "me\0"));
    mail.extend_from_slice(&message(258, "b\0"));
    mail.extend_from_slice(b"\0\0");
    router.read_connections[0].buffer.extend_from_slice(&mail);
    assert!(router.handle_connections(Event::Read(0)));
    assert_eq!(drain(&mut router.write_connections[258]), b"\0\0\x01\x02a\0");
    assert!(router.deliver(0));
    assert!(router.deliver(0));
    assert!(!router.deliver(0));
    assert!(!router.handle_connections(Event::Read(0)));
    assert_eq!(drain(&mut router.write_connections[258]), b"\0\0\x01\x02a\0b\0");
    assert_eq!(drain(&mut router.write_connections[0]), b"\0\0\0\0me\0");
    assert_eq!(&router.read_connections[0].buffer[..], b"\0\0");
}

#[test]
fn a_whole_run_copies_each_client_its_id_and_its_mail() {
    let mut router = TestRouter::new();
    let mut expected: Vec<Vec<u8>> = Vec::new();
    for id in 0..3_u32 {
        router.join("stream", Vec::new());
        expected.push(id.to_be_bytes().to_vec());
    }
    for round in 0..30_usize {
        let (from, to) = (round % 3, (round / 2) % 3);
        let body = format!("message {round}\0");
        expected[to].extend_from_slice(body.as_bytes());
        let bytes = message(to as u32, &body);
        let cut = round % bytes.len();
        read(&mut router, from, &bytes[..cut]);
        read(&mut router, from, &bytes[cut..]);
        let socket = &mut router.write_connections[to];
        let n = socket.buffer.len().min(round % 5);
        socket.writer.extend_from_slice(&socket.buffer[..n]);
        socket.buffer.advance(n);
    }
    for (id, mail) in expected.into_iter().enumerate() {
        assert_eq!(drain(&mut router.write_connections[id]), mail);
    }
}
