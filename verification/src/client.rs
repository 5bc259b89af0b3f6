//! The consumer's side of its connection: the handshake it sends, and what it
//! makes of each line that arrives.

use vstd::prelude::*;
use crate::Offset;
use crate::segment::Client;
use crate::wire::{
    be_bytes, handshake_message, is_heartbeat, prefix_of, HandshakeError,
    CONSUMER_MESSAGE_PREFIX, OFFSET_BYTES, PRODUCER_MESSAGE_PREFIX,
};

verus! {

/// Milliseconds that a consumer waits after a heartbeat before it reads on.
pub const HEARTBEAT_PAUSE_MILLIS: u64 = 100;

/// What a consumer does with a line that arrived.
#[derive(Clone, Copy, Debug, PartialEq, Eq, Structural)]
pub enum ClientAction {
    /// The stream has ended: stop.
    Stop,
    /// The line was a heartbeat: pause, then read on.
    Wait,
    /// The line is the record that starts at `offset`: hand it on.
    Deliver { offset: Offset },
}

/// A consumer's place in the log: the offset of the next record it expects.
#[derive(Clone, Copy, Debug, PartialEq, Eq, Structural)]
pub struct ConsumerClient {
    offset: Offset,
}

impl View for ConsumerClient {
    type V = Offset;

    closed spec fn view(&self) -> Offset {
        self.offset
    }
}

/// What a consumer does with `line`: it stops at an empty line, waits at a
/// heartbeat, and hands on any other line as the record at its offset.
pub open spec fn spec_on_line(offset: Offset, line: Seq<u8>) -> ClientAction {
    if line.len() == 0 {
        ClientAction::Stop
    } else if line.len() == 2 && line[0] == 0 {
        ClientAction::Wait
    } else {
        ClientAction::Deliver { offset }
    }
}

/// The offset a consumer expects next after `line`: behind the line where the
/// line was a record, else where it was.
pub open spec fn spec_offset_after(offset: Offset, line: Seq<u8>) -> int {
    if spec_on_line(offset, line) is Deliver {
        offset + line.len()
    } else {
        offset as int
    }
}

impl ConsumerClient {
    /// A consumer that wants to read from `offset` on.
    pub fn new(offset: Offset) -> (client: ConsumerClient)
        ensures
            client@ == offset,
    {
        ConsumerClient { offset }
    }

    /// Offset of the next record that the consumer expects.
    pub fn offset(&self) -> (offset: Offset)
        ensures
            offset == self@,
    {
        self.offset
    }

    /// What the consumer sends to open its connection: the consumer's prefix,
    /// then its offset as eight bytes, most significant first.
    pub fn handshake(&self) -> (bytes: Vec<u8>)
        ensures
            bytes@ == seq![CONSUMER_MESSAGE_PREFIX] + be_bytes(self@),
    {
        handshake_message(self.offset)
    }

    /// Takes a line that arrived. An empty line is the end of the stream. A
    /// line of two bytes that starts with a null byte is a heartbeat. Any other
    /// line is the record at the consumer's offset, and the offset moves behind
    /// it.
    pub fn on_line(&mut self, line: &[u8]) -> (action: ClientAction)
        requires
            spec_offset_after(old(self)@, line@) <= Offset::MAX,
        ensures
            action == spec_on_line(old(self)@, line@),
            final(self)@ == spec_offset_after(old(self)@, line@),
    {
        if line.len() == 0 {
            ClientAction::Stop
        } else if is_heartbeat(line) {
            ClientAction::Wait
        } else {
            let offset = self.offset;
            self.offset = offset + line.len() as u64;
            ClientAction::Deliver { offset }
        }
    }
}

/// Whether the bytes of the offset went out whole: a handshake of which fewer
/// than eight bytes were written has failed.
pub fn check_handshake_written(num_written: usize) -> (r: Result<(), HandshakeError>)
    ensures
        num_written == OFFSET_BYTES ==> r is Ok,
        num_written != OFFSET_BYTES ==> r == Err::<(), HandshakeError>(HandshakeError::Incomplete),
{
    if num_written != OFFSET_BYTES {
        Err(HandshakeError::Incomplete)
    } else {
        Ok(())
    }
}

/// What a producer sends to open its connection: the producer's prefix.
pub fn producer_hello() -> (bytes: Vec<u8>)
    ensures
        bytes@ == seq![PRODUCER_MESSAGE_PREFIX],
{
    let mut bytes: Vec<u8> = Vec::new();
    bytes.push(prefix_of(Client::Producer));
    bytes
}

} // verus!
