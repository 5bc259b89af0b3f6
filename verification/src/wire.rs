//! The wire protocol: the byte that announces a connection's role, the
//! consumer's starting offset as eight big-endian bytes, and the heartbeat.

use vstd::prelude::*;
use byteorder::{ByteOrder, NetworkEndian};
use crate::Offset;
use crate::records::NEWLINE;
use crate::segment::Client;

verus! {

/// First byte of a consumer's connection.
pub const CONSUMER_MESSAGE_PREFIX: u8 = 42;

/// First byte of a producer's connection.
pub const PRODUCER_MESSAGE_PREFIX: u8 = 78;

/// Number of bytes of an offset on the wire.
pub const OFFSET_BYTES: usize = 8;

/// Why a handshake was refused.
#[derive(Clone, Copy, Debug, PartialEq, Eq, Structural)]
pub enum HandshakeError {
    /// Fewer than eight bytes arrived.
    Incomplete,
}

impl HandshakeError {
    /// A sentence that describes the error.
    pub fn message(&self) -> (text: String)
        ensures
            text@ == "handshake holds fewer than eight bytes"@,
    {
        "handshake holds fewer than eight bytes".to_owned()
    }
}

/// The number that `bytes` stand for, most significant byte first.
pub open spec fn be_value(bytes: Seq<u8>) -> nat
    decreases bytes.len(),
{
    if bytes.len() == 0 {
        0
    } else {
        be_value(bytes.drop_last()) * 256 + bytes.last() as nat
    }
}

/// The last `width` bytes of `n`, most significant first.
pub open spec fn be_bytes_of(n: nat, width: nat) -> Seq<u8>
    decreases width,
{
    if width == 0 {
        Seq::empty()
    } else {
        be_bytes_of(n / 256, (width - 1) as nat).push((n % 256) as u8)
    }
}

/// The eight bytes of `n`, most significant first.
pub open spec fn be_bytes(n: u64) -> Seq<u8> {
    be_bytes_of(n as nat, 8)
}

/// 256 to the power of `e`.
pub open spec fn pow256(e: nat) -> nat
    decreases e,
{
    if e == 0 {
        1
    } else {
        256 * pow256((e - 1) as nat)
    }
}

/// The role that a connection's first byte announces, if any.
pub open spec fn spec_classify(prefix: u8) -> Option<Client> {
    if prefix == CONSUMER_MESSAGE_PREFIX {
        Some(Client::Consumer)
    } else if prefix == PRODUCER_MESSAGE_PREFIX {
        Some(Client::Producer)
    } else {
        None
    }
}

/// The line that tells an idle consumer that the broker is alive: a null byte
/// and a newline.
pub open spec fn spec_heartbeat() -> Seq<u8> {
    seq![0u8, NEWLINE]
}

/// Calls `byteorder::ByteOrder::read_u64` of `NetworkEndian`, which reads the
/// first eight bytes of `buf` as a big-endian number and panics on a shorter
/// buffer.
#[verifier::external_body]
fn read_u64_network(buf: &[u8]) -> (n: u64)
    requires
        buf@.len() >= 8,
    ensures
        n == be_value(buf@.take(8)),
{
    NetworkEndian::read_u64(buf)
}

/// Calls `byteorder::ByteOrder::write_u64` of `NetworkEndian`, which overwrites
/// the first eight bytes of `buf` with `n` in big-endian order, leaves the rest
/// as it is, and panics on a shorter buffer.
#[verifier::external_body]
fn write_u64_network(buf: &mut [u8], n: u64)
    requires
        old(buf)@.len() >= 8,
    ensures
        final(buf)@ == be_bytes(n) + old(buf)@.skip(8),
{
    NetworkEndian::write_u64(buf, n)
}

/// Bytes stand for a number below 256 to the power of their count.
pub proof fn lemma_be_value_bound(bytes: Seq<u8>)
    ensures
        be_value(bytes) < pow256(bytes.len()),
        bytes.len() == 8 ==> be_value(bytes) <= Offset::MAX,
    decreases bytes.len(),
{
    if bytes.len() > 0 {
        lemma_be_value_bound(bytes.drop_last());
    }
    if bytes.len() == 8 {
        assert(pow256(8) == 0x1_0000_0000_0000_0000) by {
            reveal_with_fuel(pow256, 9);
        }
    }
}

/// The bytes of a number are `width` bytes that stand for it, where it has no
/// more than `width` bytes.
pub proof fn lemma_be_bytes_of(n: nat, width: nat)
    ensures
        be_bytes_of(n, width).len() == width,
        n < pow256(width) ==> be_value(be_bytes_of(n, width)) == n,
    decreases width,
{
    if width > 0 {
        lemma_be_bytes_of(n / 256, (width - 1) as nat);
        assert(be_bytes_of(n, width).drop_last() =~= be_bytes_of(n / 256, (width - 1) as nat));
    }
}

/// Bytes come back from the number they stand for.
pub proof fn lemma_be_bytes_of_value(bytes: Seq<u8>)
    ensures
        be_bytes_of(be_value(bytes), bytes.len()) == bytes,
    decreases bytes.len(),
{
    if bytes.len() > 0 {
        lemma_be_bytes_of_value(bytes.drop_last());
        assert(be_bytes_of(be_value(bytes), bytes.len()) =~= bytes);
    } else {
        assert(be_bytes_of(be_value(bytes), bytes.len()) =~= bytes);
    }
}

/// The role that a connection's first byte announces: 42 a consumer, 78 a
/// producer, any other byte none.
pub fn classify(prefix: u8) -> (role: Option<Client>)
    ensures
        role == spec_classify(prefix),
{
    if prefix == CONSUMER_MESSAGE_PREFIX {
        Some(Client::Consumer)
    } else if prefix == PRODUCER_MESSAGE_PREFIX {
        Some(Client::Producer)
    } else {
        None
    }
}

/// The byte that announces `client`.
pub fn prefix_of(client: Client) -> (prefix: u8)
    ensures
        spec_classify(prefix) == Some(client),
        prefix == match client {
            Client::Consumer => CONSUMER_MESSAGE_PREFIX,
            Client::Producer => PRODUCER_MESSAGE_PREFIX,
        },
{
    match client {
        Client::Consumer => CONSUMER_MESSAGE_PREFIX,
        Client::Producer => PRODUCER_MESSAGE_PREFIX,
    }
}

/// Reads a consumer's starting offset from the first eight bytes of `bytes`,
/// most significant byte first. Fewer than eight bytes are no handshake.
pub fn decode_offset(bytes: &[u8]) -> (r: Result<Offset, HandshakeError>)
    ensures
        bytes@.len() >= 8 ==> r is Ok && r.unwrap() == be_value(bytes@.take(8)),
        bytes@.len() < 8 ==> r == Err::<Offset, HandshakeError>(HandshakeError::Incomplete),
{
    if bytes.len() < OFFSET_BYTES {
        Err(HandshakeError::Incomplete)
    } else {
        Ok(read_u64_network(bytes))
    }
}

/// The eight bytes that carry `offset` on the wire, most significant first.
pub fn encode_offset(offset: Offset) -> (bytes: Vec<u8>)
    ensures
        bytes@ == be_bytes(offset),
{
    let mut bytes: Vec<u8> = vec![0u8; 8];
    write_u64_network(bytes.as_mut_slice(), offset);
    assert(bytes@ =~= be_bytes(offset));
    bytes
}

/// What a consumer sends to open its connection: the consumer's prefix, then
/// the offset it wants to read from.
pub fn handshake_message(offset: Offset) -> (bytes: Vec<u8>)
    ensures
        bytes@ == seq![CONSUMER_MESSAGE_PREFIX] + be_bytes(offset),
{
    let tail = encode_offset(offset);
    proof {
        lemma_be_bytes_of(offset as nat, 8);
    }
    let mut bytes: Vec<u8> = Vec::new();
    bytes.push(prefix_of(Client::Consumer));
    let mut i: usize = 0;
    while i < 8
        invariant
            i <= 8,
            tail@.len() == 8,
            bytes@ == seq![CONSUMER_MESSAGE_PREFIX] + tail@.take(i as int),
        decreases 8 - i,
    {
        bytes.push(tail[i]);
        i = i + 1;
        assert(bytes@ =~= seq![CONSUMER_MESSAGE_PREFIX] + tail@.take(i as int));
    }
    assert(tail@.take(8) =~= tail@);
    bytes
}

/// The heartbeat line.
pub fn heartbeat() -> (line: Vec<u8>)
    ensures
        line@ == spec_heartbeat(),
{
    let mut line: Vec<u8> = Vec::new();
    line.push(0u8);
    line.push(NEWLINE);
    assert(line@ =~= spec_heartbeat());
    line
}

/// Whether `line` is a heartbeat: two bytes, the first of them null.
pub fn is_heartbeat(line: &[u8]) -> (r: bool)
    ensures
        r == (line@.len() == 2 && line@[0] == 0),
{
    line.len() == 2 && line[0] == 0
}

/// An offset comes back from its eight bytes.
pub proof fn law_offset_round_trip(offset: Offset)
    ensures
        be_bytes(offset).len() == 8,
        be_value(be_bytes(offset)) == offset,
        be_value(be_bytes(offset).take(8)) == offset,
{
    let bytes = be_bytes(offset);
    lemma_be_bytes_of(offset as nat, 8);
    assert(pow256(8) == 0x1_0000_0000_0000_0000) by {
        reveal_with_fuel(pow256, 9);
    }
    assert(bytes.take(8) =~= bytes);
}

/// Eight bytes come back from the offset they stand for.
pub proof fn law_bytes_round_trip(bytes: Seq<u8>)
    requires
        bytes.len() == 8,
    ensures
        be_value(bytes) <= Offset::MAX,
        be_bytes(be_value(bytes) as Offset) == bytes,
{
    lemma_be_value_bound(bytes);
    lemma_be_bytes_of_value(bytes);
}

} // verus!
