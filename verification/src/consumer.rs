//! The broker's side of a consumer's connection: it takes the starting
//! offset, streams the records from there on, one at a time, and sends a
//! heartbeat whenever it has caught up.
//!
//! The session decides; its host reads from and writes to the socket. After
//! each thing the host did, it tells the session, and the session answers with
//! what to do next. The session keeps no bytes of its own: each record is read
//! from the partition as it is at that moment.

use vstd::prelude::*;
use crate::Offset;
use crate::partition::{lemma_index_of, Partition, PartitionView};
use crate::records::{lemma_record_end_first_newline, spec_next_record};
use crate::wire::{be_value, decode_offset};

verus! {

/// Where a consumer's connection stands.
#[derive(Clone, Copy, Debug, PartialEq, Eq, Structural)]
pub enum ConsumerState {
    /// The starting offset has not arrived yet.
    AwaitingOffset,
    /// A record is on its way to the consumer.
    Tailing,
    /// The consumer has all there is; a heartbeat is on its way.
    Heartbeating,
    /// The connection is over.
    Closed,
}

/// What the host of a session does next.
#[derive(Debug, PartialEq, Eq)]
pub enum ConsumerAction {
    /// Write this record to the socket.
    Send(Vec<u8>),
    /// Flush the socket, write the heartbeat line and pause.
    Heartbeat,
    /// Close the socket.
    Close,
}

/// An action, as plain values.
pub enum ConsumerActionView {
    /// Write this record to the socket.
    Send(Seq<u8>),
    /// Flush the socket, write the heartbeat line and pause.
    Heartbeat,
    /// Close the socket.
    Close,
}

impl View for ConsumerAction {
    type V = ConsumerActionView;

    open spec fn view(&self) -> ConsumerActionView {
        match self {
            ConsumerAction::Send(record) => ConsumerActionView::Send(record@),
            ConsumerAction::Heartbeat => ConsumerActionView::Heartbeat,
            ConsumerAction::Close => ConsumerActionView::Close,
        }
    }
}

/// A consumer's session.
#[derive(Clone, Copy, Debug, PartialEq, Eq, Structural)]
pub struct ConsumerSession {
    state: ConsumerState,
    offset: Offset,
    in_flight: u64,
    segment: Option<Offset>,
}

/// What a session is, as plain values.
pub struct ConsumerView {
    /// Where the connection stands.
    pub state: ConsumerState,
    /// Offset behind the last record that reached the consumer.
    pub offset: Offset,
    /// Length of the record that is on its way to the consumer.
    pub in_flight: u64,
    /// Base offset of the segment that the session streams from, if any.
    pub segment: Option<Offset>,
}

/// Index of the segment that the walk over the segments from index `from` on
/// streams from next, for a consumer that stands at `offset`. The walk ends
/// without one at a segment that starts behind `offset`; it passes a segment
/// where the next one does not start behind `offset`, and one that holds no
/// byte at `offset`.
pub open spec fn spec_scan(partition: PartitionView, offset: Offset, from: int) -> Option<int>
    decreases partition.segments.len() - from,
{
    let segments = partition.segments;
    if from < 0 || from >= segments.len() {
        None
    } else if offset < segments[from].base_offset {
        None
    } else if from + 1 < segments.len() && offset >= segments[from + 1].base_offset {
        spec_scan(partition, offset, from + 1)
    } else if spec_next_record(segments[from].data, offset - segments[from].base_offset).len()
        > 0 {
        Some(from)
    } else {
        spec_scan(partition, offset, from + 1)
    }
}

impl ConsumerView {
    /// A session is well formed where a record is in flight exactly while it
    /// tails, and it then streams from a segment that does not start behind its
    /// offset.
    pub open spec fn wf(self) -> bool {
        match self.state {
            ConsumerState::AwaitingOffset => self.segment is None && self.in_flight == 0
                && self.offset == 0,
            ConsumerState::Tailing => {
                &&& self.in_flight > 0
                &&& self.segment matches Some(base)
                &&& base <= self.offset
                &&& self.offset + self.in_flight <= Offset::MAX
            },
            ConsumerState::Heartbeating => self.segment is None && self.in_flight == 0,
            ConsumerState::Closed => self.segment is None && self.in_flight == 0,
        }
    }

    /// A session that waits for its starting offset.
    pub open spec fn fresh() -> ConsumerView {
        ConsumerView {
            state: ConsumerState::AwaitingOffset,
            offset: 0,
            in_flight: 0,
            segment: None,
        }
    }

    /// The session closed. Its offset stays: a record in flight did not reach
    /// the consumer.
    pub open spec fn closed(self) -> ConsumerView {
        ConsumerView { state: ConsumerState::Closed, in_flight: 0, segment: None, ..self }
    }

    /// The session after what was in flight reached the consumer.
    pub open spec fn acknowledged(self) -> ConsumerView {
        ConsumerView { offset: (self.offset + self.in_flight) as Offset, in_flight: 0, ..self }
    }

    /// The session with a heartbeat on its way.
    pub open spec fn idle(self) -> ConsumerView {
        ConsumerView { state: ConsumerState::Heartbeating, in_flight: 0, segment: None, ..self }
    }

    /// The session with `record` on its way, read from the segment that starts
    /// at `base`.
    pub open spec fn sending(self, base: Offset, record: Seq<u8>) -> ConsumerView {
        ConsumerView {
            state: ConsumerState::Tailing,
            in_flight: record.len() as u64,
            segment: Some(base),
            ..self
        }
    }

    /// The record that the partition holds at the session's offset in the
    /// segment that the session streams from; empty where the session streams
    /// from none, the partition does not hold that segment, or the segment
    /// holds no byte there.
    pub open spec fn record_at_hand(self, partition: PartitionView) -> Seq<u8> {
        match self.segment {
            Some(base) => partition.record_at(base, self.offset - base),
            None => Seq::empty(),
        }
    }

    /// Where the walk over the segments starts: behind the segment that the
    /// session streams from, or at the first segment where it streams from none
    /// or the partition does not hold that segment.
    pub open spec fn scan_start(self, partition: PartitionView) -> int {
        match self.segment {
            Some(base) => partition.index_of(base) + 1,
            None => 0,
        }
    }

    /// What a session with nothing in flight hands out next, and what it is
    /// then. While the segment it streams from holds a byte at its offset, the
    /// record there. At that segment's end the first record that the walk over
    /// the later segments finds at the session's offset. A heartbeat only where
    /// neither holds a byte at the offset: where the consumer has caught up.
    #[verifier::opaque]
    pub open spec fn tail(self, partition: PartitionView) -> (ConsumerView, ConsumerActionView) {
        let record = self.record_at_hand(partition);
        if record.len() > 0 {
            (self.sending(self.segment.unwrap(), record), ConsumerActionView::Send(record))
        } else {
            match spec_scan(partition, self.offset, self.scan_start(partition)) {
                Some(i) => {
                    let stored = partition.segments[i];
                    let found = spec_next_record(stored.data, self.offset - stored.base_offset);
                    (self.sending(stored.base_offset, found), ConsumerActionView::Send(found))
                },
                None => (self.idle(), ConsumerActionView::Heartbeat),
            }
        }
    }

    /// What the session is after `bytes` arrived as its handshake, and what it
    /// hands out: with eight bytes or more it starts to tail at the offset that
    /// the first eight stand for; with fewer it closes.
    pub open spec fn after_handshake(self, partition: PartitionView, bytes: Seq<u8>) -> (
        ConsumerView,
        ConsumerActionView,
    ) {
        if self.state == ConsumerState::AwaitingOffset && bytes.len() >= 8 {
            ConsumerView {
                state: ConsumerState::Tailing,
                offset: be_value(bytes.take(8)) as Offset,
                ..self
            }.tail(partition)
        } else {
            (self.closed(), ConsumerActionView::Close)
        }
    }

    /// What the session is after the host wrote what it was handed, and what
    /// it hands out next: it counts a record that was in flight and goes on
    /// tailing. A session that handed nothing out closes.
    pub open spec fn after_written(self, partition: PartitionView) -> (
        ConsumerView,
        ConsumerActionView,
    ) {
        if self.state == ConsumerState::Tailing || self.state == ConsumerState::Heartbeating {
            ConsumerView { state: ConsumerState::Tailing, ..self.acknowledged() }.tail(partition)
        } else {
            (self.closed(), ConsumerActionView::Close)
        }
    }
}

impl View for ConsumerSession {
    type V = ConsumerView;

    closed spec fn view(&self) -> ConsumerView {
        ConsumerView {
            state: self.state,
            offset: self.offset,
            in_flight: self.in_flight,
            segment: self.segment,
        }
    }
}

impl ConsumerSession {
    /// Whether the session is well formed.
    pub open spec fn wf(&self) -> bool {
        self@.wf()
    }

    /// A session that waits for its starting offset.
    pub fn new() -> (session: ConsumerSession)
        ensures
            session@ == ConsumerView::fresh(),
            session.wf(),
    {
        ConsumerSession {
            state: ConsumerState::AwaitingOffset,
            offset: 0,
            in_flight: 0,
            segment: None,
        }
    }

    /// Where the connection stands.
    pub fn state(&self) -> (state: ConsumerState)
        ensures
            state == self@.state,
    {
        self.state
    }

    /// Offset behind the last record that reached the consumer. Once the
    /// session is closed this is where the consumer stopped.
    pub fn offset(&self) -> (offset: Offset)
        ensures
            offset == self@.offset,
    {
        self.offset
    }

    /// Length of the record that is on its way to the consumer.
    pub fn in_flight(&self) -> (bytes: u64)
        ensures
            bytes == self@.in_flight,
    {
        self.in_flight
    }

    /// Base offset of the segment that the session streams from, if any.
    pub fn segment(&self) -> (segment: Option<Offset>)
        ensures
            segment == self@.segment,
    {
        self.segment
    }

    /// Closes the session.
    fn shut(&mut self) -> (action: ConsumerAction)
        ensures
            final(self)@ == old(self)@.closed(),
            final(self).wf(),
            action@ == ConsumerActionView::Close,
    {
        self.state = ConsumerState::Closed;
        self.in_flight = 0;
        self.segment = None;
        ConsumerAction::Close
    }

    /// Hands out `record`, read from the segment that starts at `base`.
    fn send(&mut self, base: Offset, record: Vec<u8>) -> (action: ConsumerAction)
        requires
            record@.len() > 0,
            base <= old(self)@.offset,
            old(self)@.offset + record@.len() <= Offset::MAX,
        ensures
            final(self)@ == old(self)@.sending(base, record@),
            final(self).wf(),
            action@ == ConsumerActionView::Send(record@),
    {
        self.in_flight = record.len() as u64;
        self.state = ConsumerState::Tailing;
        self.segment = Some(base);
        ConsumerAction::Send(record)
    }

    /// Hands out the next record or a heartbeat.
    #[verifier::rlimit(40)]
    fn tail(&mut self, partition: &mut Partition) -> (action: ConsumerAction)
        requires
            old(partition).wf(),
            old(self)@.in_flight == 0,
            old(self)@.segment matches Some(base) ==> base <= old(self)@.offset,
        ensures
            final(self).wf(),
            final(partition).wf(),
            final(partition)@ == old(partition)@,
            (final(self)@, action@) == old(self)@.tail(old(partition)@),
    {
        proof {
            reveal(ConsumerView::tail);
        }
        let ghost before = self@;
        let ghost log = partition@;
        let bases = partition.segment_offsets();
        let mut from: usize = 0;
        match self.segment {
            Some(base) => {
                proof {
                    lemma_index_of(log.bases(), base);
                }
                match partition.find_segment(base) {
                    Some(i) => {
                        let position: u64 = self.offset - base;
                        let record = partition.read_record(base, position).unwrap();
                        if record.len() > 0 {
                            proof {
                                lemma_record_end_first_newline(
                                    log.segments[i as int].data,
                                    position as int,
                                );
                                assert(log.bases()[i as int] == log.segments[i as int].base_offset);
                            }
                            return self.send(base, record);
                        }
                        assert(i < bases.len());
                        from = i + 1;
                    },
                    None => {},
                }
            },
            None => {},
        }
        let mut i: usize = from;
        while i < bases.len()
            invariant
                partition.wf(),
                partition@ == log,
                log == old(partition)@,
                bases@ == log.bases(),
                from <= i,
                before == old(self)@,
                self@ == before,
                from as int == before.scan_start(log),
                before.record_at_hand(log).len() == 0,
                spec_scan(log, before.offset, from as int) == spec_scan(
                    log,
                    before.offset,
                    i as int,
                ),
            ensures
                partition.wf(),
                partition@ == log,
                log == old(partition)@,
                before == old(self)@,
                self@ == before,
                from as int == before.scan_start(log),
                before.record_at_hand(log).len() == 0,
                spec_scan(log, before.offset, from as int) is None,
            decreases bases@.len() - i,
        {
            if self.offset < bases[i] {
                break ;
            }
            if i + 1 < bases.len() && self.offset >= bases[i + 1] {
                i = i + 1;
                continue ;
            }
            proof {
                lemma_index_of(log.bases(), bases@[i as int]);
            }
            let base = bases[i];
            let position: u64 = self.offset - base;
            let record = partition.read_record(base, position).unwrap();
            if record.len() > 0 {
                proof {
                    reveal(ConsumerView::tail);
                    lemma_record_end_first_newline(log.segments[i as int].data, position as int);
                    assert(log.segments[i as int].base_offset == base);
                }
                return self.send(base, record);
            }
            i = i + 1;
        }
        self.state = ConsumerState::Heartbeating;
        self.in_flight = 0;
        self.segment = None;
        ConsumerAction::Heartbeat
    }

    /// Takes the bytes that the host read as the handshake. Eight bytes or
    /// more start the session at the offset that the first eight stand for,
    /// most significant byte first, and the session hands out the first
    /// record from there, or a heartbeat. Fewer bytes, or a session that does
    /// not wait for its offset, close the session. The partition is afterwards
    /// as it was.
    pub fn on_handshake(&mut self, partition: &mut Partition, bytes: &[u8]) -> (action:
        ConsumerAction)
        requires
            old(self).wf(),
            old(partition).wf(),
        ensures
            final(self).wf(),
            final(partition).wf(),
            final(partition)@ == old(partition)@,
            (final(self)@, action@) == old(self)@.after_handshake(old(partition)@, bytes@),
    {
        match self.state {
            ConsumerState::AwaitingOffset => {},
            _ => {
                return self.shut();
            },
        }
        match decode_offset(bytes) {
            Ok(offset) => {
                self.offset = offset;
                self.state = ConsumerState::Tailing;
                self.tail(partition)
            },
            Err(_) => self.shut(),
        }
    }

    /// Takes the news that the host wrote what it was handed. A record that
    /// was in flight now counts as consumed, and the session hands out the
    /// record that the partition now holds at its offset; a heartbeat only
    /// where it holds none. A session that had handed nothing out closes. The
    /// partition is afterwards as it was.
    pub fn on_written(&mut self, partition: &mut Partition) -> (action: ConsumerAction)
        requires
            old(self).wf(),
            old(partition).wf(),
        ensures
            final(self).wf(),
            final(partition).wf(),
            final(partition)@ == old(partition)@,
            (final(self)@, action@) == old(self)@.after_written(old(partition)@),
    {
        match self.state {
            ConsumerState::Tailing => {
                self.offset = self.offset + self.in_flight;
                self.in_flight = 0;
                self.tail(partition)
            },
            ConsumerState::Heartbeating => {
                self.state = ConsumerState::Tailing;
                self.tail(partition)
            },
            _ => self.shut(),
        }
    }

    /// Takes the news that reading from or writing to the socket failed: the
    /// session closes. What was in flight does not count as consumed.
    pub fn on_failure(&mut self) -> (action: ConsumerAction)
        ensures
            final(self).wf(),
            final(self)@ == old(self)@.closed(),
            action@ == ConsumerActionView::Close,
    {
        self.shut()
    }
}

} // verus!
