use bytes::{Bytes, BytesMut};
use message_router::identity::greeting;
use message_router::message::{destination, parse_message, ParseError};
use message_router::wire::{from_network, to_network};

fn buffer(bytes: &[u8]) -> BytesMut {
    BytesMut::from(bytes)
}

#[test]
fn network_order_is_most_significant_first() {
    assert_eq!(to_network(0x0102_0304), [1, 2, 3, 4]);
    assert_eq!(to_network(0xdead_beef), 0xdead_beef_u32.to_be_bytes());
    assert_eq!(from_network(&[1, 2, 3, 4, 5]), 0x0102_0304);
    for value in [0, 1, 255, 256, 65_535, 65_536, 16_777_215, 16_777_216, u32::MAX] {
        assert_eq!(to_network(value), value.to_be_bytes());
        assert_eq!(from_network(&to_network(value)), value);
    }
}

#[test]
fn greeting_is_the_id() {
    assert_eq!(greeting(0x0a0b_0c0d), Bytes::from_static(&[10, 11, 12, 13]));
}

#[test]
fn a_whole_message_is_taken() {
    let mut message = buffer(b"\x00\x00\x00\x02hello, number 2\0");
    let (dest, payload) = parse_message(&mut message).unwrap();
    assert_eq!(dest, 2);
    assert_eq!(&payload[..], b"hello, number 2\0");
    assert!(message.is_empty());
}

#[test]
fn one_message_is_taken_at_a_time() {
    let mut message = buffer(b"\x00\x00\x00\x01a\0\x00\x00\x00\x02bc\0\x00\x00");
    let (dest, payload) = parse_message(&mut message).unwrap();
    assert_eq!((dest, &payload[..]), (1, &b"a\0"[..]));
    assert_eq!(&message[..], b"\x00\x00\x00\x02bc\0\x00\x00");
    let (dest, payload) = parse_message(&mut message).unwrap();
    assert_eq!((dest, &payload[..]), (2, &b"bc\0"[..]));
    assert_eq!(&message[..], b"\x00\x00");
    assert_eq!(parse_message(&mut message), Err(ParseError));
}

#[test]
fn an_incomplete_message_stays() {
    for bytes in [
        &b""[..],
        &b"\0"[..],
        &b"\0\0\0\0"[..],
        &b"\0\0\0\x01a"[..],
        &b"\x01\x02\x03\x04no end"[..],
    ] {
        let mut message = buffer(bytes);
        assert_eq!(parse_message(&mut message), Err(ParseError));
        assert_eq!(&message[..], bytes);
        assert_eq!(destination(&message), None);
    }
}

#[test]
fn null_bytes_of_the_id_end_nothing() {
    let mut message = buffer(b"\0\0\0\0\0");
    assert_eq!(destination(&message), Some(0));
    let (dest, payload) = parse_message(&mut message).unwrap();
    assert_eq!(dest, 0);
    assert_eq!(&payload[..], b"\0");
}

#[test]
fn the_id_is_in_network_order() {
    let mut message = buffer(b"\x01\x02\x03\x04x\0");
    assert_eq!(destination(&message), Some(0x0102_0304));
    assert_eq!(parse_message(&mut message).unwrap().0, 0x0102_0304);
}

#[test]
fn pieces_give_the_same_messages() {
    let stream = b"\x00\x00\x00\x07one\0\x00\x00\x01\x00two\0\xff\xff\xff\xff\0";
    for cut in 0..=stream.len() {
        let mut message = BytesMut::new();
        let mut found = Vec::new();
        for piece in [&stream[..cut], &stream[cut..]] {
            message.extend_from_slice(piece);
            while let Ok((dest, payload)) = parse_message(&mut message) {
                found.push((dest, payload.to_vec()));
            }
        }
        assert_eq!(
            found,
            vec![
                (7, b"one\0".to_vec()),
                (256, b"two\0".to_vec()),
                (u32::MAX, b"\0".to_vec()),
            ]
        );
        assert!(message.is_empty());
    }
}
