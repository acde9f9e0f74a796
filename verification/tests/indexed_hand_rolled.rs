use message_router::indexed_hand_rolled::{
    Event, Pass, ReadAction, ReadEvent, Router, SendAction, SendEvent, Socket,
};
use message_router::poll::Poll;

type TestSocket = Socket<&'static str, u32>;
type TestRouter = Router<&'static str, u32>;

const INT_MSG1: &str = "hello, number 2\0";
const INT_MSG2: &str = "hello back, number 1\0";

/// One call of `poll_send` on a stream that takes at most `chunk` bytes.
fn poll_send(socket: &mut TestSocket, chunk: usize, written: &mut Vec<u8>) -> Poll<()> {
    let mut action = socket.poll_send::<()>(SendEvent::Begin(7));
    loop {
        let event = match action {
            SendAction::PollWriteReady => SendEvent::WriteReady(Poll::Ready(())),
            SendAction::TryWrite => {
                let n = chunk.min(socket.write_buffer.len());
                written.extend_from_slice(&socket.write_buffer[..n]);
                SendEvent::<u32, ()>::Wrote(Ok(n))
            }
            SendAction::Return(outcome) => return outcome,
        };
        action = socket.poll_send(event);
    }
}

fn drain(socket: &mut TestSocket) -> Vec<u8> {
    let mut written = Vec::new();
    while poll_send(socket, 3, &mut written).is_ready() {}
    written
}

/// A whole pass, in which `streams` connect, everyone is written to, and everyone
/// who sent something is read from: what was written to each, and who was woken.
fn pass(router: &mut TestRouter, streams: &[&'static str]) -> (Vec<Vec<u8>>, Vec<u32>) {
    let mut streams = streams.iter();
    let mut written = Vec::new();
    let mut woken = Vec::new();
    let mut next = Pass::PollAccept;
    loop {
        let event: Event<&'static str, ()> = match next {
            Pass::PollAccept => match streams.next() {
                Some(stream) => Event::Accepted(Poll::Ready(Ok(*stream))),
                None => Event::Accepted(Poll::Pending),
            },
            Pass::PollSend(i) => {
                if written.len() <= i {
                    written.push(Vec::new());
                }
                Event::Sent(poll_send(&mut router.connections[i], 5, &mut written[i]))
            }
            Pass::PollRead(i) => {
                if router.connections[i].read_buffer.is_empty() {
                    Event::Read(Poll::Pending)
                } else {
                    Event::Read(Poll::Ready(()))
                }
            }
            Pass::Return => return (written, woken),
        };
        let step = router.poll_next(next, event);
        woken.extend(step.waker);
        next = step.next;
    }
}

fn message(dest: u32, body: &str) -> Vec<u8> {
    let mut bytes = dest.to_be_bytes().to_vec();
    bytes.extend_from_slice(body.as_bytes());
    bytes
}

#[test]
fn polling_by_hand_works() {
    let mut router = TestRouter::new();
    let (written, woken) = pass(&mut router, &["first", "second"]);
    assert_eq!(written, [b"\0\0\0\0", b"\0\0\0\x01"]);
    assert!(woken.is_empty());

    router.connections[0].read_buffer.extend_from_slice(&message(1, INT_MSG1));
    let (written, woken) = pass(&mut router, &[]);
    assert_eq!(written, [b"", b""]);
    assert_eq!(woken, [7]);
    let (written, _) = pass(&mut router, &[]);
    assert_eq!(written, [&b""[..], INT_MSG1.as_bytes()]);

    router.connections[1].read_buffer.extend_from_slice(&message(0, INT_MSG2));
    pass(&mut router, &[]);
    let (written, _) = pass(&mut router, &[]);
    assert_eq!(written, [INT_MSG2.as_bytes(), &b""[..]]);
}

#[test]
fn the_listener_is_polled_until_nobody_connects() {
    let mut router = TestRouter::new();
    let event: Event<&'static str, ()> = Event::Accepted(Poll::Pending);
    assert_eq!(router.poll_next(Pass::PollAccept, event).next, Pass::Return);
    let event: Event<&'static str, ()> = Event::Accepted(Poll::Ready(Ok("one")));
    assert_eq!(router.poll_next(Pass::PollAccept, event).next, Pass::PollAccept);
    let event: Event<&'static str, ()> = Event::Accepted(Poll::Pending);
    let step = router.poll_next(Pass::PollAccept, event);
    assert_eq!(step.next, Pass::PollSend(0));
    assert!(!step.wake);
    let event = Event::Accepted(Poll::Ready(Err("no more files")));
    let step = router.poll_next(Pass::PollAccept, event);
    assert_eq!(step.next, Pass::PollSend(0));
    assert!(step.wake);
    assert_eq!(router.connections.len(), 1);
}

#[test]
fn a_client_is_written_to_until_it_is_pending() {
    let mut router = TestRouter::new();
    router.join("one");
    router.join("two");
    let sent = |outcome| -> Event<&'static str, ()> { Event::Sent(outcome) };
    let next = router.poll_next(Pass::PollSend(0), sent(Poll::Ready(()))).next;
    assert_eq!(next, Pass::PollSend(0));
    let next = router.poll_next(next, sent(Poll::Pending)).next;
    assert_eq!(next, Pass::PollSend(1));
    let next = router.poll_next(next, sent(Poll::Pending)).next;
    assert_eq!(next, Pass::PollRead(0));
    let read: Event<&'static str, ()> = Event::Read(Poll::Pending);
    let step = router.poll_next(next, read);
    assert_eq!(step.next, Pass::PollRead(1));
    assert!(!step.wake);
}

#[test]
fn a_client_that_was_read_from_is_polled_again() {
    let mut router = TestRouter::new();
    router.join("one");
    router.connections[0].read_buffer.extend_from_slice(b"\0\0\0");
    let read: Event<&'static str, ()> = Event::Read(Poll::Ready(()));
    let step = router.poll_next(Pass::PollRead(0), read);
    assert!(step.wake);
    assert_eq!(step.next, Pass::Return);
    assert_eq!(step.waker, None);
}

#[test]
fn every_message_of_a_read_is_copied_before_the_next_poll() {
    let mut router = TestRouter::new();
    router.join("zero");
    router.join("one");
    let buffer = &mut router.connections[0].read_buffer;
    buffer.extend_from_slice(&message(1, "a\0"));
    buffer.extend_from_slice(&message(1, "b\0"));
    for _ in 0..2 {
        let read: Event<&'static str, ()> = Event::Read(Poll::Ready(()));
        let step = router.poll_next(Pass::PollRead(0), read);
        assert!(step.again);
        assert!(step.wake);
        assert_eq!(step.next, Pass::PollRead(0));
    }
    let read: Event<&'static str, ()> = Event::Read(Poll::Ready(()));
    let step = router.poll_next(Pass::PollRead(0), read);
    assert!(!step.again);
    assert!(step.wake);
    assert_eq!(step.next, Pass::PollRead(1));
    assert_eq!(drain(&mut router.connections[1]), b"\0\0\0\x01a\0b\0");
}

#[test]
fn a_stream_that_refuses_is_polled_again() {
    let mut socket = TestSocket::new("stream");
    assert_eq!(
        socket.poll_send::<()>(SendEvent::Begin(7)),
        SendAction::Return(Poll::Pending)
    );
    assert_eq!(socket.send(b"ab"), Some(7));
    assert_eq!(socket.send(b"cd"), None);
    assert_eq!(socket.poll_send::<()>(SendEvent::Begin(8)), SendAction::PollWriteReady);
    assert_eq!(socket.waker, None);
    assert_eq!(
        socket.poll_send::<()>(SendEvent::WriteReady(Poll::Pending)),
        SendAction::Return(Poll::Pending)
    );
    assert_eq!(
        socket.poll_send(SendEvent::Wrote(Err("not now"))),
        SendAction::PollWriteReady
    );
    assert_eq!(drain(&mut socket), b"abcd");

    assert_eq!(socket.poll_read::<()>(ReadEvent::Begin), ReadAction::PollReadReady);
    assert_eq!(
        socket.poll_read::<()>(ReadEvent::ReadReady(Poll::Ready(()))),
        ReadAction::TryRead
    );
    assert_eq!(
        socket.poll_read::<()>(ReadEvent::ReadReady(Poll::Pending)),
        ReadAction::Return(Poll::Pending)
    );
    assert_eq!(
        socket.poll_read(ReadEvent::Read(Err("not now"))),
        ReadAction::PollReadReady
    );
    assert_eq!(
        socket.poll_read::<()>(ReadEvent::Read(Ok(2))),
        ReadAction::Return(Poll::Ready(()))
    );
}

#[test]
fn polling_copies_each_message_to_its_destination_in_order() {
    let mut router = TestRouter::new();
    router.join("zero");
    router.join("one");
    let buffer = &mut router.connections[0].read_buffer;
    buffer.extend_from_slice(&message(1, "a\0"));
    buffer.extend_from_slice(&message(0, "me\0"));
    buffer.extend_from_slice(&message(1, "b\0"));
    buffer.extend_from_slice(&message(1, "half"));
    for _ in 0..3 {
        let delivery = router.deliver(0);
        assert!(delivery.taken);
        assert_eq!(delivery.woken, None);
    }
    assert!(!router.deliver(0).taken);
    assert_eq!(drain(&mut router.connections[0]), b"\0\0\0\0me\0");
    assert_eq!(drain(&mut router.connections[1]), b"\0\0\0\x01a\0b\0");
    assert_eq!(&router.connections[0].read_buffer[..], &message(1, "half")[..]);
}

#[test]
fn a_call_that_returns_ready_wrote_once() {
    let mut socket = TestSocket::new("stream");
    socket.send(b"abc");
    let mut attempts = vec![Ok(2), Err("not now"), Err("not now")];
    let mut writes = 0;
    let mut action = socket.poll_send::<&str>(SendEvent::Begin(0));
    while !matches!(action, SendAction::Return(_)) {
        let event = match action {
            SendAction::PollWriteReady => SendEvent::WriteReady(Poll::Ready(())),
            _ => {
                let attempt = attempts.pop().unwrap();
                writes += attempt.is_ok() as usize;
                SendEvent::Wrote(attempt)
            }
        };
        action = socket.poll_send(event);
    }
    assert_eq!(action, SendAction::Return(Poll::Ready(())));
    assert_eq!(writes, 1);
    assert_eq!(&socket.write_buffer[..], b"c");
}
