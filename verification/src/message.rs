//! The messages that clients send to one another.
//!
//! A message is the receiving client's ID in four bytes of network order, and
//! then the bytes meant for that client, of which the last, and only the last,
//! is null.

use crate::buffers::{content, unread, unread_slice};
use crate::wire::{from_network, network_bytes, network_value};
use crate::wire::{law_bytes_of_value, law_most_significant_first, law_value_of_bytes};
use bytes::{Bytes, BytesMut};
use vstd::prelude::*;

verus! {

/// The buffer does not start with a whole message.
#[derive(Debug, Clone, Copy, PartialEq, Eq, Structural)]
pub struct ParseError;

/// The first `n` bytes of `stream` are one whole message.
pub open spec fn frames(stream: Seq<u8>, n: int) -> bool {
    &&& 5 <= n <= stream.len()
    &&& stream[n - 1] == 0
    &&& forall|i: int| 4 <= i < n - 1 ==> stream[i] != 0
}

/// The message that `stream` starts with: its destination, the bytes for that
/// destination, and what follows the message.
pub open spec fn parse(stream: Seq<u8>) -> Option<(u32, Seq<u8>, Seq<u8>)> {
    if exists|n: int| frames(stream, n) {
        let n = choose|n: int| frames(stream, n);
        Some((network_value(stream), stream.subrange(4, n), stream.skip(n)))
    } else {
        None
    }
}

/// The message that carries `body` to the client `dest`.
pub open spec fn encode(dest: u32, body: Seq<u8>) -> Seq<u8> {
    network_bytes(dest) + body.push(0)
}

/// A body that a message can carry: the null byte ends a message.
pub open spec fn is_body(body: Seq<u8>) -> bool {
    forall|i: int| 0 <= i < body.len() ==> body[i] != 0
}

/// Bytes that a message hands to its destination: a body and its null byte.
pub open spec fn is_payload(payload: Seq<u8>) -> bool {
    &&& payload.len() > 0
    &&& payload.last() == 0
    &&& is_body(payload.drop_last())
}

/// All messages that `stream` starts with, in order, one after the other.
pub open spec fn messages(stream: Seq<u8>) -> Seq<(u32, Seq<u8>)>
    decreases stream.len(),
{
    match parse(stream) {
        Some((dest, payload, rest)) => {
            proof {
                law_parsed_is_encoded(stream);
            }
            seq![(dest, payload)] + messages(rest)
        },
        None => seq![],
    }
}

/// What `stream` holds after all the messages that it starts with.
pub open spec fn leftover(stream: Seq<u8>) -> Seq<u8>
    decreases stream.len(),
{
    match parse(stream) {
        Some((_, _, rest)) => {
            proof {
                law_parsed_is_encoded(stream);
            }
            leftover(rest)
        },
        None => stream,
    }
}

/// All bytes that `mail` holds for `dest`, in order.
pub open spec fn addressed(mail: Seq<(u32, Seq<u8>)>, dest: u32) -> Seq<u8>
    decreases mail.len(),
{
    if mail.len() == 0 {
        seq![]
    } else if mail[0].0 == dest {
        mail[0].1 + addressed(mail.drop_first(), dest)
    } else {
        addressed(mail.drop_first(), dest)
    }
}

/// What is addressed to `id` is what the first message carries, if it is for `id`, and
/// then what the others carry.
pub proof fn lemma_addressed_first(mail: Seq<(u32, Seq<u8>)>, id: u32, pending: Seq<u8>)
    requires
        mail.len() > 0,
    ensures
        pending + addressed(mail, id) == (if mail[0].0 == id {
            pending + mail[0].1
        } else {
            pending
        }) + addressed(mail.drop_first(), id),
{
    assert(pending + addressed(mail, id) =~= (if mail[0].0 == id {
        pending + mail[0].1
    } else {
        pending
    }) + addressed(mail.drop_first(), id));
}

/// The messages of `mail`, written one after the other.
pub open spec fn encode_all(mail: Seq<(u32, Seq<u8>)>) -> Seq<u8>
    decreases mail.len(),
{
    if mail.len() == 0 {
        seq![]
    } else {
        encode(mail[0].0, mail[0].1) + encode_all(mail.drop_first())
    }
}

/// Where a message ends is settled by the bytes alone.
proof fn lemma_frames_unique(stream: Seq<u8>, m: int, n: int)
    requires
        frames(stream, m),
        frames(stream, n),
    ensures
        m == n,
{
    if m < n {
        assert(stream[m - 1] != 0);
    } else if n < m {
        assert(stream[n - 1] != 0);
    }
}

proof fn lemma_parse_framed(stream: Seq<u8>, n: int)
    requires
        frames(stream, n),
    ensures
        parse(stream) == Some(
            (network_value(stream), stream.subrange(4, n), stream.skip(n)),
        ),
{
    lemma_frames_unique(stream, n, choose|m: int| frames(stream, m));
}

/// A stream starts with a whole message if and only if some byte after the
/// first four is null.
pub proof fn law_complete_iff_terminated(stream: Seq<u8>)
    ensures
        parse(stream) is Some <==> exists|i: int| 4 <= i < stream.len() && stream[i] == 0,
{
    if exists|n: int| frames(stream, n) {
        let n = choose|n: int| frames(stream, n);
        assert(4 <= n - 1 < stream.len() && stream[n - 1] == 0);
    }
    if exists|i: int| 4 <= i < stream.len() && stream[i] == 0 {
        let i = choose|i: int| 4 <= i < stream.len() && stream[i] == 0;
        lemma_terminated_is_framed(stream, i);
    }
}

proof fn lemma_terminated_is_framed(stream: Seq<u8>, i: int)
    requires
        4 <= i < stream.len(),
        stream[i] == 0,
    ensures
        exists|n: int| frames(stream, n),
    decreases i,
{
    if exists|j: int| 4 <= j < i && stream[j] == 0 {
        let j = choose|j: int| 4 <= j < i && stream[j] == 0;
        lemma_terminated_is_framed(stream, j);
    } else {
        assert(frames(stream, i + 1));
    }
}

/// What was parsed, written again, is the stream that it was parsed from, and
/// the bytes for the destination end with their only null byte.
pub proof fn law_parsed_is_encoded(stream: Seq<u8>)
    ensures
        parse(stream) matches Some((dest, payload, rest)) ==> {
            &&& is_payload(payload)
            &&& stream == encode(dest, payload.drop_last()) + rest
            &&& rest.len() + 4 + payload.len() == stream.len()
        },
{
    if let Some((dest, payload, rest)) = parse(stream) {
        let n = choose|n: int| frames(stream, n);
        assert(payload.drop_last().push(0) =~= payload);
        law_bytes_of_value(stream.take(4));
        assert(network_bytes(dest) =~= stream.take(4));
        assert(stream =~= encode(dest, payload.drop_last()) + rest);
    }
}

/// A message comes back from the stream as it was written: its destination, its
/// body with the null byte and without the ID, and the rest of the stream
/// untouched.
pub proof fn law_encoded_is_parsed(dest: u32, body: Seq<u8>, rest: Seq<u8>)
    requires
        is_body(body),
    ensures
        parse(encode(dest, body) + rest) == Some((dest, body.push(0), rest)),
{
    let stream = encode(dest, body) + rest;
    let n = body.len() as int + 5;
    assert(frames(stream, n)) by {
        assert(stream[n - 1] == 0);
        assert forall|i: int| 4 <= i < n - 1 implies stream[i] != 0 by {
            assert(stream[i] == body[i - 4]);
        }
    }
    lemma_parse_framed(stream, n);
    law_value_of_bytes(dest);
    assert(stream.subrange(4, n) =~= body.push(0));
    assert(stream.skip(n) =~= rest);
}

proof fn lemma_add_associative(a: Seq<u8>, b: Seq<u8>, c: Seq<u8>)
    ensures
        (a + b) + c == a + (b + c),
{
    assert((a + b) + c =~= a + (b + c));
}

/// Bytes that arrive later do not change a message that is already whole.
pub proof fn law_later_bytes_keep_message(stream: Seq<u8>, later: Seq<u8>)
    ensures
        parse(stream) matches Some((dest, payload, rest)) ==> parse(stream + later) == Some(
            (dest, payload, rest + later),
        ),
{
    if let Some((dest, payload, rest)) = parse(stream) {
        law_parsed_is_encoded(stream);
        let body = payload.drop_last();
        lemma_add_associative(encode(dest, body), rest, later);
        law_encoded_is_parsed(dest, body, rest + later);
        assert(body.push(0) =~= payload);
    }
}

/// One message is taken at a time, the first, and the others stay.
pub proof fn law_one_at_a_time(stream: Seq<u8>)
    ensures
        match parse(stream) {
            Some((dest, payload, rest)) => {
                &&& messages(stream).len() > 0
                &&& messages(stream)[0] == (dest, payload)
                &&& messages(stream).drop_first() == messages(rest)
                &&& leftover(stream) == leftover(rest)
            },
            None => {
                &&& messages(stream).len() == 0
                &&& leftover(stream) == stream
            },
        },
{
    if let Some((dest, payload, rest)) = parse(stream) {
        assert(messages(stream) == seq![(dest, payload)] + messages(rest));
        assert(messages(stream).drop_first() =~= messages(rest));
    }
}

/// However the stream is cut into pieces, the messages are the same: those of
/// the first piece, and those of what it left over followed by the second.
pub proof fn law_pieces_keep_messages(first: Seq<u8>, second: Seq<u8>)
    ensures
        messages(first + second) == messages(first) + messages(leftover(first) + second),
        leftover(first + second) == leftover(leftover(first) + second),
    decreases first.len(),
{
    law_later_bytes_keep_message(first, second);
    law_parsed_is_encoded(first);
    match parse(first) {
        Some((dest, payload, rest)) => {
            law_pieces_keep_messages(rest, second);
            assert(messages(first + second) =~= messages(first) + messages(
                leftover(first) + second,
            ));
        },
        None => {
            assert(messages(first + second) =~= messages(first) + messages(
                leftover(first) + second,
            ));
        },
    }
}

/// What is left over holds no whole message.
pub proof fn law_leftover_is_incomplete(stream: Seq<u8>)
    ensures
        parse(leftover(stream)) is None,
    decreases stream.len(),
{
    if let Some((_, _, rest)) = parse(stream) {
        law_parsed_is_encoded(stream);
        law_leftover_is_incomplete(rest);
    }
}

/// What `stream` holds once its first `n` messages were taken.
pub open spec fn after_taking(stream: Seq<u8>, n: nat) -> Seq<u8>
    decreases n,
{
    if n == 0 {
        stream
    } else {
        match parse(stream) {
            Some((_, _, rest)) => after_taking(rest, (n - 1) as nat),
            None => stream,
        }
    }
}

/// Taking messages off a stream until there is none gives all of its messages, in
/// order, and leaves what is left over.
pub proof fn law_taken_until_none(stream: Seq<u8>)
    ensures
        forall|i: nat|
            i < messages(stream).len() ==> parse(#[trigger] after_taking(stream, i)) == Some(
                (
                    messages(stream)[i as int].0,
                    messages(stream)[i as int].1,
                    after_taking(stream, i + 1),
                ),
            ),
        after_taking(stream, messages(stream).len()) == leftover(stream),
        parse(leftover(stream)) is None,
    decreases stream.len(),
{
    law_one_at_a_time(stream);
    law_leftover_is_incomplete(stream);
    if let Some((dest, payload, rest)) = parse(stream) {
        law_parsed_is_encoded(stream);
        law_taken_until_none(rest);
        let mail = messages(stream);
        assert(mail.drop_first().len() == mail.len() - 1);
        assert forall|i: nat| i < mail.len() implies parse(#[trigger] after_taking(stream, i))
            == Some((mail[i as int].0, mail[i as int].1, after_taking(stream, i + 1))) by {
            assert(after_taking(stream, i + 1) == after_taking(rest, i));
            if i > 0 {
                let j = (i - 1) as nat;
                assert(after_taking(stream, i) == after_taking(rest, j));
                assert(mail[i as int] == messages(rest)[j as int]);
            }
        }
    }
}

/// Messages as they come back: each body with its null byte.
pub open spec fn as_parsed(mail: Seq<(u32, Seq<u8>)>) -> Seq<(u32, Seq<u8>)> {
    mail.map_values(|m: (u32, Seq<u8>)| (m.0, m.1.push(0)))
}

proof fn lemma_first_of_all(mail: Seq<(u32, Seq<u8>)>)
    requires
        mail.len() > 0,
        is_body(mail[0].1),
    ensures
        parse(encode_all(mail)) == Some(
            (mail[0].0, mail[0].1.push(0), encode_all(mail.drop_first())),
        ),
{
    law_encoded_is_parsed(mail[0].0, mail[0].1, encode_all(mail.drop_first()));
}

proof fn lemma_parsed_from_first(parsed: Seq<(u32, Seq<u8>)>, mail: Seq<(u32, Seq<u8>)>)
    requires
        mail.len() > 0,
        parsed.len() > 0,
        parsed[0] == (mail[0].0, mail[0].1.push(0)),
        parsed.drop_first() == as_parsed(mail.drop_first()),
    ensures
        parsed == as_parsed(mail),
{
    assert(parsed.len() == parsed.drop_first().len() + 1);
    assert(as_parsed(mail.drop_first()).len() == mail.drop_first().len());
    assert(parsed.len() == mail.len());
    assert forall|i: int| 0 < i < parsed.len() implies parsed[i] == as_parsed(mail)[i] by {
        assert(parsed[i] == parsed.drop_first()[i - 1]);
        assert(mail[i] == mail.drop_first()[i - 1]);
    }
    assert(parsed =~= as_parsed(mail));
}

/// Messages written one after the other come back in that order, each whole,
/// and nothing is left over.
pub proof fn law_stream_of_messages(mail: Seq<(u32, Seq<u8>)>)
    requires
        forall|i: int| 0 <= i < mail.len() ==> is_body(#[trigger] mail[i].1),
    ensures
        messages(encode_all(mail)) == as_parsed(mail),
        leftover(encode_all(mail)) == Seq::<u8>::empty(),
    decreases mail.len(),
{
    law_one_at_a_time(encode_all(mail));
    if mail.len() == 0 {
        law_complete_iff_terminated(encode_all(mail));
        assert(messages(encode_all(mail)) =~= as_parsed(mail));
    } else {
        let tail = mail.drop_first();
        assert forall|i: int| 0 <= i < tail.len() implies is_body(#[trigger] tail[i].1) by {
            assert(tail[i] == mail[i + 1]);
        }
        law_stream_of_messages(tail);
        lemma_first_of_all(mail);
        lemma_parsed_from_first(messages(encode_all(mail)), mail);
    }
}

/// The number of bytes of the message at the front of `stream`, where it is whole.
fn message_len(stream: &[u8]) -> (len: Option<usize>)
    ensures
        match len {
            Some(n) => frames(stream@, n as int),
            None => parse(stream@) is None,
        },
{
    let mut i: usize = 4;
    while i < stream.len()
        invariant
            4 <= i,
            forall|j: int| 4 <= j < i && j < stream@.len() ==> stream@[j] != 0,
        decreases stream@.len() - i,
    {
        if stream[i] == 0 {
            return Some(i + 1);
        }
        i = i + 1;
    }
    proof {
        law_complete_iff_terminated(stream@);
    }
    None
}

/// Takes one message off the front of the buffer: its destination, and the bytes
/// for that destination. Where the buffer does not start with a whole message, it
/// is left as it is.
pub fn parse_message(message: &mut BytesMut) -> (parsed: Result<(u32, Bytes), ParseError>)
    ensures
        match parsed {
            Ok((dest, payload)) => parse(unread(*old(message))) == Some(
                (dest, content(payload), unread(*final(message))),
            ),
            Err(_) => {
                &&& parse(unread(*old(message))) is None
                &&& *final(message) == *old(message)
            },
        },
{
    if message.len() < 5 {
        proof {
            law_complete_iff_terminated(unread(*message));
        }
        return Err(ParseError);
    }
    let end: usize = match message_len(unread_slice(message)) {
        Some(end) => end,
        None => return Err(ParseError),
    };
    proof {
        lemma_parse_framed(unread(*message), end as int);
    }
    let ghost stream = unread(*message);
    let mut data = message.split_to(end);
    let header = data.split_to(4);
    let dest: u32 = from_network(unread_slice(&header));
    assert(unread(data) =~= stream.subrange(4, end as int));
    Ok((dest, data.freeze()))
}

/// The destination of the message at the front of the buffer, where it is whole.
pub fn destination(message: &BytesMut) -> (dest: Option<u32>)
    ensures
        dest == (match parse(unread(*message)) {
            Some((dest, _, _)) => Some(dest),
            None => None,
        }),
{
    let stream = unread_slice(message);
    match message_len(stream) {
        Some(end) => {
            proof {
                lemma_parse_framed(stream@, end as int);
            }
            Some(from_network(stream))
        },
        None => None,
    }
}

/// Some byte after the first four is null: the bytes start with a whole message.
pub open spec fn terminated(bytes: Seq<u8>) -> bool {
    exists|i: int| 4 <= i < bytes.len() && bytes[i] == 0
}

/// What a message is, in bytes: after the four that name its destination, most significant
/// first, it reaches to the first null byte. It is taken off a stream exactly when that
/// byte is there.
pub proof fn law_message_in_bytes(stream: Seq<u8>)
    ensures
        parse(stream) is Some <==> exists|i: int| 4 <= i < stream.len() && stream[i] == 0,
        parse(stream) matches Some((dest, payload, rest)) ==> {
            &&& stream.len() >= 5
            &&& stream[0] * 0x100_0000 + stream[1] * 0x1_0000 + stream[2] * 0x100 + stream[3]
                == dest
            &&& payload + rest == stream.skip(4)
            &&& payload.len() > 0
            &&& payload[payload.len() - 1] == 0
            &&& forall|i: int| 0 <= i < payload.len() - 1 ==> payload[i] != 0
        },
{
    law_complete_iff_terminated(stream);
    if let Some((dest, payload, rest)) = parse(stream) {
        law_parsed_is_encoded(stream);
        law_most_significant_first(dest);
        let body = payload.drop_last();
        assert(body.push(0) =~= payload);
        assert(encode(dest, body).skip(4) =~= payload);
        assert(payload + rest =~= stream.skip(4));
        assert forall|i: int| 0 <= i < payload.len() - 1 implies payload[i] != 0 by {
            assert(payload[i] == body[i]);
        }
        assert(stream[0] == network_bytes(dest)[0]);
        assert(stream[1] == network_bytes(dest)[1]);
        assert(stream[2] == network_bytes(dest)[2]);
        assert(stream[3] == network_bytes(dest)[3]);
    }
}

/// A call of `parse_message` takes the bytes up to the first null byte after the first
/// four off the buffer, where there is one, and hands on those after the first four.
/// Otherwise it takes nothing.
pub proof fn law_parse_message(message: &mut BytesMut, parsed: Result<(u32, Bytes), ParseError>)
    requires
        call_ensures(parse_message, (message,), parsed),
    ensures
        parsed is Ok <==> exists|i: int|
            4 <= i < unread(*old(message)).len() && unread(*old(message))[i] == 0,
        parsed is Err ==> unread(*final(message)) == unread(*old(message)),
        parsed matches Ok((dest, payload)) ==> {
            let stream = unread(*old(message));
            let handed = content(payload);
            &&& stream[0] * 0x100_0000 + stream[1] * 0x1_0000 + stream[2] * 0x100 + stream[3]
                == dest
            &&& handed + unread(*final(message)) == stream.skip(4)
            &&& handed.len() > 0
            &&& handed[handed.len() - 1] == 0
            &&& forall|i: int| 0 <= i < handed.len() - 1 ==> handed[i] != 0
        },
{
    law_message_in_bytes(unread(*old(message)));
}

/// The destination is known exactly when the message is whole, and it is the one that the
/// message is then handed to.
pub proof fn law_destination_of_the_next(
    message: &mut BytesMut,
    dest: Option<u32>,
    parsed: Result<(u32, Bytes), ParseError>,
)
    requires
        call_ensures(destination, (&*old(message),), dest),
        call_ensures(parse_message, (message,), parsed),
    ensures
        match parsed {
            Ok((named, _)) => dest == Some(named),
            Err(_) => dest is None,
        },
{
}

} // verus!
