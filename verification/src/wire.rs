//! Numbers as they travel: four bytes, most significant first.

use vstd::prelude::*;

verus! {

/// The four bytes of `value` in network order.
pub open spec fn network_bytes(value: u32) -> Seq<u8> {
    seq![
        (value / 0x100_0000) as u8,
        (value / 0x1_0000 % 0x100) as u8,
        (value / 0x100 % 0x100) as u8,
        (value % 0x100) as u8,
    ]
}

/// The number whose four bytes in network order are the first four of `bytes`.
pub open spec fn network_value(bytes: Seq<u8>) -> u32
    recommends
        bytes.len() >= 4,
{
    (bytes[0] * 0x100_0000 + bytes[1] * 0x1_0000 + bytes[2] * 0x100 + bytes[3]) as u32
}

/// Reading a number back from its bytes gives that number.
pub proof fn law_value_of_bytes(value: u32)
    ensures
        network_bytes(value).len() == 4,
        network_value(network_bytes(value)) == value,
{
}

/// Of the four bytes of a number, each counts 256 times as much as the next: together
/// they make up the number.
pub proof fn law_most_significant_first(value: u32)
    ensures
        network_bytes(value).len() == 4,
        network_bytes(value)[0] * 0x100_0000 + network_bytes(value)[1] * 0x1_0000 + network_bytes(
            value,
        )[2] * 0x100 + network_bytes(value)[3] == value,
{
}

/// The number that four bytes stand for is the one whose bytes they are, whatever follows
/// them.
pub proof fn law_only_four_bytes_count(bytes: Seq<u8>, value: u32)
    requires
        bytes.len() >= 4,
    ensures
        network_value(bytes) == value <==> network_bytes(value) == bytes.take(4),
{
    law_bytes_of_value(bytes.take(4));
    law_value_of_bytes(value);
    assert(network_value(bytes) == network_value(bytes.take(4)));
}

/// A number that is written and read again is the same number, whatever follows it, and
/// its bytes make it up, each counting 256 times as much as the next.
pub proof fn law_written_and_read(value: u32, bytes: [u8; 4], stream: &[u8], read: u32)
    requires
        call_ensures(to_network, (value,), bytes),
        call_ensures(from_network, (stream,), read),
        stream@.len() >= 4,
    ensures
        bytes@[0] * 0x100_0000 + bytes@[1] * 0x1_0000 + bytes@[2] * 0x100 + bytes@[3] == value,
        stream@[0] * 0x100_0000 + stream@[1] * 0x1_0000 + stream@[2] * 0x100 + stream@[3] == read,
        stream@.take(4) == bytes@ <==> read == value,
{
    law_most_significant_first(value);
    law_only_four_bytes_count(stream@, value);
}

/// Four bytes are the bytes of the number that they stand for.
pub proof fn law_bytes_of_value(bytes: Seq<u8>)
    requires
        bytes.len() == 4,
    ensures
        network_bytes(network_value(bytes)) == bytes,
{
    let a = bytes[0] as int;
    let b = bytes[1] as int;
    let c = bytes[2] as int;
    let d = bytes[3] as int;
    let value = a * 0x100_0000 + b * 0x1_0000 + c * 0x100 + d;
    assert(value == network_value(bytes));
    assert(value / 0x100_0000 == a);
    assert(value / 0x1_0000 == a * 0x100 + b);
    assert((a * 0x100 + b) % 0x100 == b);
    assert(value / 0x100 == a * 0x1_0000 + b * 0x100 + c);
    assert((a * 0x1_0000 + b * 0x100 + c) % 0x100 == c);
    assert(value % 0x100 == d);
    assert(network_bytes(network_value(bytes)) =~= bytes);
}

/// Two numbers with the same bytes are the same number.
pub proof fn law_bytes_injective(a: u32, b: u32)
    requires
        network_bytes(a) == network_bytes(b),
    ensures
        a == b,
{
    law_value_of_bytes(a);
    law_value_of_bytes(b);
}

/// The four bytes of `value` in network order.
pub fn to_network(value: u32) -> (bytes: [u8; 4])
    ensures
        bytes@ == network_bytes(value),
{
    let bytes: [u8; 4] = [
        (value / 0x100_0000) as u8,
        (value / 0x1_0000 % 0x100) as u8,
        (value / 0x100 % 0x100) as u8,
        (value % 0x100) as u8,
    ];
    assert(bytes@ =~= network_bytes(value));
    bytes
}

/// The number that the first four of `bytes` stand for.
pub fn from_network(bytes: &[u8]) -> (value: u32)
    requires
        bytes@.len() >= 4,
    ensures
        value == network_value(bytes@),
{
    bytes[0] as u32 * 0x100_0000 + bytes[1] as u32 * 0x1_0000 + bytes[2] as u32 * 0x100
        + bytes[3] as u32
}

} // verus!
