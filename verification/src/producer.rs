//! The broker's side of a producer's connection: each record that arrives is
//! appended to the segment that the connection writes to, and the connection
//! moves on to the active segment whenever that has changed.
//!
//! The session decides; its host reads from the socket and writes to the
//! segment's file. For each record the host asks the session whether its
//! segment takes the record, writes the record to the segment's file and
//! flushes it, and then hands the record to the session. It lets no other
//! writer at the partition in between.

use vstd::prelude::*;
use crate::Offset;
use crate::partition::{AppendOutcome, Partition, PartitionError, PartitionView};

verus! {

/// Where a producer's connection stands.
#[derive(Clone, Copy, Debug, PartialEq, Eq, Structural)]
pub enum ProducerState {
    /// The connection has not been announced as a producer's yet.
    AwaitingHandshake,
    /// Records are read and appended.
    Streaming,
    /// The connection is over.
    Closed,
}

/// What the host of a session does next.
#[derive(Clone, Copy, Debug, PartialEq, Eq, Structural)]
pub enum ProducerAction {
    /// Read the next record; write it to the file of the segment that starts
    /// at `segment`.
    Read { segment: Offset },
    /// The stream has ended: close the socket.
    Finish,
    /// The connection failed: close the socket and report the reason.
    Abort { reason: Option<PartitionError> },
}

/// A producer's session: its state, and the base offset of the segment that
/// it writes to.
#[derive(Clone, Copy, Debug, PartialEq, Eq, Structural)]
pub struct ProducerSession {
    state: ProducerState,
    segment: Offset,
}

/// What a session is, as plain values.
pub struct ProducerView {
    /// Where the connection stands.
    pub state: ProducerState,
    /// Base offset of the segment that the session writes to.
    pub segment: Offset,
}

impl ProducerView {
    /// The session closed.
    pub open spec fn closed(self) -> ProducerView {
        ProducerView { state: ProducerState::Closed, ..self }
    }

    /// Why `record` cannot be appended to the session's segment, if it cannot:
    /// the partition has no such segment, or the bytes would reach beyond the
    /// largest offset.
    pub open spec fn refusal(self, partition: PartitionView, record: Seq<u8>) -> Option<
        PartitionError,
    > {
        partition.refusal(self.segment, record.len())
    }

    /// The session after `record` was appended to its segment: it goes on with
    /// that segment while it is the active one, and with the active one else.
    pub open spec fn after_append(self, partition: PartitionView, record: Seq<u8>) -> ProducerView {
        if partition.append_outcome(self.segment, record) == AppendOutcome::Unchanged {
            self
        } else {
            ProducerView {
                segment: partition.appended(self.segment, record).active_base_offset,
                ..self
            }
        }
    }

    /// What the session and the partition are after `record` arrived, and what
    /// the session hands out. A streaming session takes an empty record as the
    /// end of the stream and closes; it appends any other record to its segment,
    /// or closes where that is refused. A session that does not stream closes.
    pub open spec fn after_record(self, partition: PartitionView, record: Seq<u8>) -> (
        ProducerView,
        PartitionView,
        ProducerAction,
    ) {
        if self.state != ProducerState::Streaming {
            (self.closed(), partition, ProducerAction::Abort { reason: None })
        } else if record.len() == 0 {
            (self.closed(), partition, ProducerAction::Finish)
        } else if self.refusal(partition, record) is Some {
            (
                self.closed(),
                partition,
                ProducerAction::Abort { reason: self.refusal(partition, record) },
            )
        } else {
            let next = self.after_append(partition, record);
            (
                next,
                partition.appended(self.segment, record),
                ProducerAction::Read { segment: next.segment },
            )
        }
    }
}

impl View for ProducerSession {
    type V = ProducerView;

    closed spec fn view(&self) -> ProducerView {
        ProducerView { state: self.state, segment: self.segment }
    }
}

impl ProducerSession {
    /// A session whose connection has not been announced yet.
    pub fn new() -> (session: ProducerSession)
        ensures
            session@ == (ProducerView { state: ProducerState::AwaitingHandshake, segment: 0 }),
    {
        ProducerSession { state: ProducerState::AwaitingHandshake, segment: 0 }
    }

    /// Where the connection stands.
    pub fn state(&self) -> (state: ProducerState)
        ensures
            state == self@.state,
    {
        self.state
    }

    /// Base offset of the segment that the session writes to.
    pub fn segment(&self) -> (segment: Offset)
        ensures
            segment == self@.segment,
    {
        self.segment
    }

    /// Takes the news that the connection was announced as a producer's. A
    /// session that waited for this starts to stream into the partition's
    /// active segment; any other closes.
    pub fn start(&mut self, partition: &Partition) -> (action: ProducerAction)
        ensures
            old(self)@.state == ProducerState::AwaitingHandshake ==> final(self)@ == (ProducerView {
                state: ProducerState::Streaming,
                segment: partition@.active_base_offset,
            }) && action == (ProducerAction::Read { segment: partition@.active_base_offset }),
            old(self)@.state != ProducerState::AwaitingHandshake ==> final(self)@ == old(
                self,
            )@.closed() && action == (ProducerAction::Abort { reason: None }),
    {
        match self.state {
            ProducerState::AwaitingHandshake => {
                self.state = ProducerState::Streaming;
                self.segment = partition.active_base_offset();
                ProducerAction::Read { segment: self.segment }
            },
            _ => {
                self.state = ProducerState::Closed;
                ProducerAction::Abort { reason: None }
            },
        }
    }

    /// Why the session's segment cannot take `record`, if it cannot. The host
    /// asks this before it writes the record to the segment's file, so that
    /// the file never holds bytes that the partition refuses.
    pub fn refusal(&self, partition: &Partition, record: &[u8]) -> (r: Option<PartitionError>)
        ensures
            r == self@.refusal(partition@, record@),
    {
        partition.check_append(self.segment, record.len())
    }

    /// Takes a record that the host read, and wrote to the file of the
    /// session's segment. An empty record is the end of the stream: the session
    /// closes. Any other record is appended to the session's segment, the write
    /// offset moves behind it, and a new segment starts where the mark is
    /// crossed; the session goes on with the active segment. Where the append
    /// is refused, or the session does not stream, the session closes and the
    /// partition stays as it is.
    pub fn on_record(&mut self, partition: &mut Partition, record: &[u8]) -> (action:
        ProducerAction)
        requires
            old(partition).wf(),
        ensures
            final(partition).wf(),
            (final(self)@, final(partition)@, action) == old(self)@.after_record(
                old(partition)@,
                record@,
            ),
    {
        match self.state {
            ProducerState::Streaming => {},
            _ => {
                self.state = ProducerState::Closed;
                return ProducerAction::Abort { reason: None };
            },
        }
        if record.len() == 0 {
            self.state = ProducerState::Closed;
            return ProducerAction::Finish;
        }
        match partition.append_to(self.segment, record) {
            Ok(outcome) => {
                match outcome {
                    AppendOutcome::Unchanged => {},
                    _ => {
                        self.segment = partition.active_base_offset();
                    },
                }
                ProducerAction::Read { segment: self.segment }
            },
            Err(e) => {
                self.state = ProducerState::Closed;
                ProducerAction::Abort { reason: Some(e) }
            },
        }
    }

    /// Takes the news that reading from the socket or writing to the file
    /// failed: the session closes.
    pub fn on_failure(&mut self) -> (action: ProducerAction)
        ensures
            final(self)@ == old(self)@.closed(),
            action == (ProducerAction::Abort { reason: None }),
    {
        self.state = ProducerState::Closed;
        ProducerAction::Abort { reason: None }
    }
}

} // verus!
