use bytes::Bytes;
use message_router::hand_rolled::{
    Action, Event, Pass, ReadAction, ReadEvent, SendAction, SendEvent, Server, Socket, Step,
};
use message_router::poll::{Poll, Refusal};

type TestSocket = Socket<&'static str, u32>;
type TestServer = Server<&'static str, u32>;

const INT_MSG1: &str = "hello, number 2\0";
const INT_MSG2: &str = "hello back, number 1\0";

/// Writes whatever the socket has to write, at most `chunk` bytes at a time.
fn drain(socket: &mut TestSocket, chunk: usize) -> Vec<u8> {
    let mut written = Vec::new();
    loop {
        match socket.poll_send::<()>(SendEvent::Begin(0)) {
            SendAction::Return(Poll::Pending) => return written,
            SendAction::PollWriteReady => {}
            _ => panic!("a call begins with a poll"),
        }
        match socket.poll_send::<()>(SendEvent::WriteReady(Poll::Ready(Ok(())))) {
            SendAction::TryWrite => {}
            _ => panic!("a stream that is ready is written to"),
        }
        let front = socket.front().unwrap();
        let n = chunk.min(front.len());
        written.extend_from_slice(&front[..n]);
        match socket.poll_send::<()>(SendEvent::Wrote(Ok(n))) {
            SendAction::Return(Poll::Ready(Ok(()))) => {}
            _ => panic!("a write ends the call"),
        }
    }
}

fn read(server: &mut TestServer, id: u32, bytes: &[u8]) {
    let socket = server.connections.get_mut(&id).unwrap();
    socket.read_buffer.extend_from_slice(bytes);
}

fn message(dest: u32, body: &str) -> Vec<u8> {
    let mut bytes = dest.to_be_bytes().to_vec();
    bytes.extend_from_slice(body.as_bytes());
    bytes
}

/// Runs a pass in which nobody connects and every client is read from. An event that is
/// to be handed in again is.
fn read_pass(server: &mut TestServer) -> Vec<Step<u32, &'static str>> {
    let mut pass = Pass::new();
    let mut steps = Vec::new();
    loop {
        let event = match pass.action() {
            Action::PollAccept => Event::Accepted(Poll::Pending),
            Action::PollSend(_) => Event::Sent(Poll::Pending),
            Action::PollRead(_) => Event::Read(Poll::Ready(Ok(()))),
            Action::Return => return steps,
        };
        steps.push(server.poll_next(&mut pass, event));
    }
}

#[test]
fn it_works() {
    let mut server = TestServer::new();
    let mut ids = Vec::new();
    for stream in ["first", "second"] {
        let mut pass = Pass::new();
        let event: Event<&'static str, ()> = Event::Accepted(Poll::Ready(Ok(stream)));
        let step = server.poll_next(&mut pass, event);
        assert!(step.wake);
        let id = *server
            .connections
            .keys()
            .find(|id| !ids.contains(*id))
            .unwrap();
        assert_eq!(server.connections[&id].stream, stream);
        ids.push(id);
    }
    let (id1, id2) = (ids[0], ids[1]);
    for id in [id1, id2] {
        let socket = server.connections.get_mut(&id).unwrap();
        assert_eq!(drain(socket, 3), id.to_be_bytes());
    }

    read(&mut server, id1, &message(id2, INT_MSG1));
    read_pass(&mut server);
    assert_eq!(
        drain(server.connections.get_mut(&id2).unwrap(), 4),
        INT_MSG1.as_bytes()
    );

    read(&mut server, id2, &message(id1, INT_MSG2));
    read_pass(&mut server);
    assert_eq!(
        drain(server.connections.get_mut(&id1).unwrap(), 100),
        INT_MSG2.as_bytes()
    );
    assert!(drain(server.connections.get_mut(&id2).unwrap(), 1).is_empty());
}

#[test]
fn a_joined_client_is_sent_its_id() {
    let mut server = TestServer::new();
    server.join("stream", 0x0102_0304);
    let socket = server.connections.get_mut(&0x0102_0304).unwrap();
    assert_eq!(socket.stream, "stream");
    assert_eq!(socket.front().unwrap(), &Bytes::from_static(&[1, 2, 3, 4]));
    assert_eq!(drain(socket, 1), [1, 2, 3, 4]);
}

#[test]
fn accepted_clients_get_ids_of_their_own() {
    let mut server = TestServer::new();
    let ids: Vec<u32> = (0..8).map(|_| server.accept("stream")).collect();
    for id in &ids {
        let socket = server.connections.get_mut(id).unwrap();
        assert_eq!(drain(socket, 2), id.to_be_bytes());
    }
    assert!(ids.iter().any(|id| *id != ids[0]));
}

#[test]
fn sending_wakes_whoever_waited_once() {
    let mut socket = TestSocket::new("stream");
    assert!(socket.front().is_none());
    assert!(matches!(
        socket.poll_send::<()>(SendEvent::Begin(7)),
        SendAction::Return(Poll::Pending)
    ));
    assert_eq!(socket.waker, Some(7));
    assert_eq!(socket.send(Bytes::from_static(b"a")), Some(7));
    assert_eq!(socket.send(Bytes::from_static(b"b")), None);
    assert_eq!(drain(&mut socket, 10), b"ab");
}

#[test]
fn writing_is_tried_until_it_succeeds_or_fails() {
    let mut socket = TestSocket::new("stream");
    socket.send(Bytes::from_static(b"abc"));
    assert!(matches!(
        socket.poll_send::<&str>(SendEvent::WriteReady(Poll::Pending)),
        SendAction::Return(Poll::Pending)
    ));
    assert!(matches!(
        socket.poll_send(SendEvent::WriteReady(Poll::Ready(Err("broken")))),
        SendAction::Return(Poll::Ready(Err("broken")))
    ));
    let refused = |would_block| SendEvent::Wrote(Err(Refusal { would_block, error: "refused" }));
    assert!(matches!(socket.poll_send(refused(true)), SendAction::PollWriteReady));
    assert!(matches!(
        socket.poll_send(refused(false)),
        SendAction::Return(Poll::Ready(Err("refused")))
    ));
    assert_eq!(socket.waker, None);
    assert_eq!(drain(&mut socket, 2), b"abc");
}

#[test]
fn reading_is_tried_until_it_succeeds_or_fails() {
    let socket = TestSocket::new("stream");
    assert!(matches!(
        socket.poll_read::<&str>(ReadEvent::Begin),
        ReadAction::PollReadReady
    ));
    assert!(matches!(
        socket.poll_read::<&str>(ReadEvent::ReadReady(Poll::Ready(Ok(())))),
        ReadAction::TryRead
    ));
    assert!(matches!(
        socket.poll_read::<&str>(ReadEvent::ReadReady(Poll::Pending)),
        ReadAction::Return(Poll::Pending)
    ));
    assert!(matches!(
        socket.poll_read(ReadEvent::ReadReady(Poll::Ready(Err("broken")))),
        ReadAction::Return(Poll::Ready(Err("broken")))
    ));
    assert!(matches!(
        socket.poll_read::<&str>(ReadEvent::Read(Ok(3))),
        ReadAction::Return(Poll::Ready(Ok(())))
    ));
    let refused = |would_block| ReadEvent::Read(Err(Refusal { would_block, error: "refused" }));
    assert!(matches!(socket.poll_read(refused(true)), ReadAction::PollReadReady));
    assert!(matches!(
        socket.poll_read(refused(false)),
        ReadAction::Return(Poll::Ready(Err("refused")))
    ));
}

#[test]
fn every_client_is_polled_once_for_each() {
    let mut server = TestServer::new();
    for id in 1..=5 {
        server.join("stream", id);
    }
    let mut pass = Pass::new();
    let (mut sends, mut reads, mut accepts) = (Vec::new(), Vec::new(), 0);
    loop {
        let event: Event<&'static str, ()> = match pass.action() {
            Action::PollAccept => {
                accepts += 1;
                Event::Accepted(Poll::Pending)
            }
            Action::PollSend(id) => {
                assert!(reads.is_empty());
                sends.push(id);
                Event::Sent(Poll::Ready(Ok(())))
            }
            Action::PollRead(id) => {
                reads.push(id);
                Event::Read(Poll::Pending)
            }
            Action::Return => break,
        };
        let sending = matches!(event, Event::Sent(_));
        assert_eq!(server.poll_next(&mut pass, event).wake, sending);
    }
    sends.sort();
    reads.sort();
    assert_eq!(accepts, 1);
    assert_eq!(sends, [1, 2, 3, 4, 5]);
    assert_eq!(reads, [1, 2, 3, 4, 5]);
}

#[test]
fn a_quiet_pass_does_not_wake() {
    let mut server = TestServer::new();
    let mut pass = Pass::new();
    let event: Event<&'static str, &str> = Event::Accepted(Poll::Pending);
    let step = server.poll_next(&mut pass, event);
    assert!(!step.wake);
    assert_eq!(step.action, Action::Return);
    assert!(server.connections.is_empty());
}

#[test]
fn a_listener_that_failed_is_polled_again() {
    let mut server = TestServer::new();
    let mut pass = Pass::new();
    let event: Event<&'static str, &str> = Event::Accepted(Poll::Ready(Err("no more files")));
    let step = server.poll_next(&mut pass, event);
    assert!(step.wake);
    assert_eq!(step.waker, None);
    assert_eq!(step.failed, None);
    assert_eq!(step.action, Action::Return);
    assert!(server.connections.is_empty());
}

#[test]
fn every_message_of_a_read_is_delivered_before_the_next_poll() {
    let mut server = TestServer::new();
    server.join("one", 1);
    server.join("two", 2);
    drain(server.connections.get_mut(&2).unwrap(), 4);
    let mut mail = message(2, "a\0");
    mail.extend_from_slice(&message(2, "b\0"));
    mail.extend_from_slice(&message(2, "half"));
    read(&mut server, 1, &mail);
    let mut pass = Pass::new();
    let mut again = Vec::new();
    while pass.action() != Action::Return {
        let event: Event<&'static str, ()> = match pass.action() {
            Action::PollAccept => Event::Accepted(Poll::Pending),
            Action::PollRead(1) => Event::Read(Poll::Ready(Ok(()))),
            Action::PollRead(_) => Event::Read(Poll::Pending),
            _ => Event::Sent(Poll::Pending),
        };
        let reading = pass.action() == Action::PollRead(1);
        let step = server.poll_next(&mut pass, event);
        assert_eq!(step.wake, reading);
        if reading {
            again.push(step.again);
        } else {
            assert!(!step.again);
        }
    }
    assert_eq!(again, [true, true, false]);
    assert_eq!(drain(server.connections.get_mut(&2).unwrap(), 1), b"a\0b\0");
    assert_eq!(&server.connections[&1].read_buffer[..], &message(2, "half")[..]);
}

#[test]
fn a_client_that_cannot_be_read_is_gone() {
    let mut server = TestServer::new();
    server.join("one", 1);
    server.join("two", 2);
    let mut pass = Pass::new();
    let mut failed = None;
    loop {
        let event = match pass.action() {
            Action::PollAccept => Event::Accepted(Poll::Pending),
            Action::PollSend(_) => Event::Sent(Poll::Pending),
            Action::PollRead(1) => Event::Read(Poll::Ready(Err("reset"))),
            Action::PollRead(_) => Event::Read(Poll::Pending),
            Action::Return => break,
        };
        let step = server.poll_next(&mut pass, event);
        assert!(!step.wake);
        failed = failed.or(step.failed);
    }
    assert_eq!(failed, Some((1, "reset")));
    assert!(!server.connections.contains_key(&1));
    assert!(server.connections.contains_key(&2));
}

#[test]
fn a_message_for_nobody_goes_nowhere() {
    let mut server = TestServer::new();
    server.join("one", 1);
    server.join("two", 2);
    for id in [1, 2] {
        drain(server.connections.get_mut(&id).unwrap(), 4);
    }
    read(&mut server, 1, &message(3, "lost\0"));
    let steps = read_pass(&mut server);
    assert!(steps.iter().all(|step| step.waker.is_none()));
    for id in [1, 2] {
        let socket = server.connections.get_mut(&id).unwrap();
        assert!(drain(socket, 1).is_empty());
        assert!(socket.read_buffer.is_empty());
    }
}

#[test]
fn one_message_at_a_time_is_delivered_in_order() {
    let mut server = TestServer::new();
    server.join("one", 1);
    server.join("two", 2);
    drain(server.connections.get_mut(&2).unwrap(), 4);
    read(&mut server, 1, &message(2, "a\0"));
    read(&mut server, 1, &message(2, "b\0"));
    read(&mut server, 1, &message(2, "half"));
    let delivery = server.deliver(1);
    assert!(delivery.taken);
    assert_eq!(delivery.woken, Some(0));
    assert_eq!(server.connections[&2].front().unwrap(), &b"a\0"[..]);
    let delivery = server.deliver(1);
    assert!(delivery.taken);
    assert_eq!(delivery.woken, None);
    assert_eq!(drain(server.connections.get_mut(&2).unwrap(), 3), b"a\0b\0");
    assert!(!server.deliver(1).taken);
    assert_eq!(&server.connections[&1].read_buffer[..], &message(2, "half")[..]);
}

#[test]
fn a_client_can_write_to_itself() {
    let mut server = TestServer::new();
    server.join("one", 1);
    drain(server.connections.get_mut(&1).unwrap(), 4);
    read(&mut server, 1, &message(1, "me\0"));
    assert_eq!(server.deliver(1).woken, Some(0));
    assert_eq!(drain(server.connections.get_mut(&1).unwrap(), 4), b"me\0");
}

#[test]
fn bytes_are_written_in_the_order_they_were_sent() {
    let mut socket = TestSocket::new("stream");
    let mut sent = Vec::new();
    let mut written = Vec::new();
    for round in 0..20_u8 {
        let bytes = vec![round; 1 + (round % 4) as usize];
        sent.extend_from_slice(&bytes);
        socket.send(Bytes::from(bytes));
        let front = socket.front().unwrap();
        let n = front.len() - (round % 2) as usize;
        written.extend_from_slice(&front[..n]);
        socket.poll_send::<()>(SendEvent::Wrote(Ok(n)));
    }
    written.extend(drain(&mut socket, 1));
    assert_eq!(written, sent);
}

#[test]
fn a_whole_run_hands_each_client_its_id_and_its_mail() {
    let mut server = TestServer::new();
    let ids = [0x0102_0304, 5, 0xffff_0000];
    let mut expected: Vec<Vec<u8>> = Vec::new();
    let mut written: Vec<Vec<u8>> = Vec::new();
    for id in ids {
        server.join("stream", id);
        expected.push(id.to_be_bytes().to_vec());
        written.push(Vec::new());
    }
    for round in 0..30_usize {
        let (from, to) = (round % 3, (round / 2) % 3);
        let body = format!("message {round}\0");
        expected[to].extend_from_slice(body.as_bytes());
        read(&mut server, ids[from], &message(ids[to], &body));
        read_pass(&mut server);
        let socket = server.connections.get_mut(&ids[to]).unwrap();
        let front = socket.front().unwrap();
        let n = front.len().min(round % 9);
        written[to].extend_from_slice(&front[..n]);
        socket.poll_send::<()>(SendEvent::Wrote(Ok(n)));
    }
    for (place, id) in ids.into_iter().enumerate() {
        written[place].extend(drain(server.connections.get_mut(&id).unwrap(), 3));
    }
    assert_eq!(written, expected);
}

#[test]
fn a_call_that_returns_ready_wrote_or_read_once() {
    let mut socket = TestSocket::new("stream");
    socket.send(Bytes::from_static(b"abc"));
    let block = || Err(Refusal { would_block: true, error: () });
    let mut attempts = vec![Ok(2), block(), block()];
    let mut writes = 0;
    let mut action = socket.poll_send(SendEvent::Begin(0));
    while !matches!(action, SendAction::Return(_)) {
        let event = match action {
            SendAction::PollWriteReady => SendEvent::WriteReady(Poll::Ready(Ok(()))),
            _ => {
                let attempt = attempts.pop().unwrap();
                writes += attempt.is_ok() as usize;
                SendEvent::Wrote(attempt)
            }
        };
        action = socket.poll_send(event);
    }
    assert!(matches!(action, SendAction::Return(Poll::Ready(Ok(())))));
    assert_eq!(writes, 1);
    assert_eq!(socket.front().unwrap(), &b"c"[..]);

    let mut attempts = vec![Ok(2), block()];
    let mut reads = 0;
    let mut action = socket.poll_read(ReadEvent::Begin);
    while !matches!(action, ReadAction::Return(_)) {
        let event = match action {
            ReadAction::PollReadReady => ReadEvent::ReadReady(Poll::Ready(Ok(()))),
            _ => {
                let attempt = attempts.pop().unwrap();
                reads += attempt.is_ok() as usize;
                ReadEvent::Read(attempt)
            }
        };
        action = socket.poll_read(event);
    }
    assert!(matches!(action, ReadAction::Return(Poll::Ready(Ok(())))));
    assert_eq!(reads, 1);
}
