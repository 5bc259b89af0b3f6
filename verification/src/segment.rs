//! One segment of a partition: a run of bytes that starts at a base offset and
//! is opened either for appending or for reading.

use vstd::prelude::*;
use vstd::slice::*;
use crate::Offset;
use crate::naming::{log_filename, spec_log_filename};
use crate::records::{next_record_end, spec_next_record};

verus! {

/// The role in which a segment is opened.
#[derive(Clone, Copy, Debug, PartialEq, Eq, Structural)]
pub enum Client {
    /// Read and seek.
    Consumer,
    /// Append.
    Producer,
}

/// Why an operation on a segment was refused.
#[derive(Clone, Copy, Debug, PartialEq, Eq, Structural)]
pub enum SegmentError {
    /// The segment is not open in the role that the operation needs.
    CapabilityMismatch,
}

impl SegmentError {
    /// A sentence that describes the error.
    pub fn message(&self) -> (text: String)
        ensures
            text@ == "segment is not open in the role this operation needs"@,
    {
        "segment is not open in the role this operation needs".to_owned()
    }
}

/// A segment: the bytes it holds, the name of its file, and the role it is
/// open in, if any.
#[derive(Debug)]
pub struct Segment {
    base_offset: Offset,
    filename: String,
    data: Vec<u8>,
    client: Option<Client>,
    position: u64,
}

/// What a segment is, as plain values.
pub struct SegmentView {
    /// Offset of the first byte of the segment.
    pub base_offset: Offset,
    /// Path of the file that holds the segment.
    pub filename: Seq<char>,
    /// The bytes of the segment.
    pub data: Seq<u8>,
    /// The role the segment is open in; `None` while it is closed.
    pub client: Option<Client>,
    /// Where the next read starts, counted from the start of the segment.
    pub position: u64,
}

impl SegmentView {
    /// A closed, empty segment.
    pub open spec fn fresh(dir: Seq<char>, base_offset: Offset) -> SegmentView {
        SegmentView {
            base_offset,
            filename: spec_log_filename(dir, base_offset),
            data: Seq::empty(),
            client: None,
            position: 0,
        }
    }

    /// A closed segment that holds `data`.
    pub open spec fn stored(dir: Seq<char>, base_offset: Offset, data: Seq<u8>) -> SegmentView {
        SegmentView {
            base_offset,
            filename: spec_log_filename(dir, base_offset),
            data,
            client: None,
            position: 0,
        }
    }

    /// The segment opened in the role `client`, reading from its start.
    pub open spec fn opened(self, client: Client) -> SegmentView {
        SegmentView { client: Some(client), position: 0, ..self }
    }

    /// The segment closed.
    pub open spec fn closed(self) -> SegmentView {
        SegmentView { client: None, position: 0, ..self }
    }

    /// The segment with `bytes` appended.
    pub open spec fn appended(self, bytes: Seq<u8>) -> SegmentView {
        SegmentView { data: self.data + bytes, ..self }
    }

    /// The segment with its read position moved to `position`.
    pub open spec fn at(self, position: u64) -> SegmentView {
        SegmentView { position, ..self }
    }

    /// Whether the segment may be read.
    pub open spec fn readable(self) -> bool {
        self.client == Some(Client::Consumer)
    }

    /// Whether the segment may be appended to.
    pub open spec fn writable(self) -> bool {
        self.client == Some(Client::Producer)
    }

    /// How many bytes a read into a buffer of `room` bytes copies.
    pub open spec fn read_len(self, room: nat) -> nat {
        if self.position >= self.data.len() {
            0
        } else if self.data.len() - self.position < room {
            (self.data.len() - self.position) as nat
        } else {
            room
        }
    }

    /// The bytes that a read into a buffer of `room` bytes copies.
    pub open spec fn read_bytes(self, room: nat) -> Seq<u8> {
        if self.position >= self.data.len() {
            Seq::empty()
        } else {
            self.data.subrange(self.position as int, self.position + self.read_len(room))
        }
    }

    /// Offset of the first byte behind the segment's bytes.
    pub open spec fn end_offset(self) -> int {
        self.base_offset + self.data.len()
    }
}

impl View for Segment {
    type V = SegmentView;

    closed spec fn view(&self) -> SegmentView {
        SegmentView {
            base_offset: self.base_offset,
            filename: self.filename@,
            data: self.data@,
            client: self.client,
            position: self.position,
        }
    }
}

impl Segment {
    /// A closed, empty segment that starts at `offset`, with its file under
    /// `partition_path`.
    pub fn new(partition_path: String, offset: u64) -> (segment: Segment)
        ensures
            segment@ == SegmentView::fresh(partition_path@, offset),
    {
        let filename = log_filename(&partition_path, offset);
        Segment { base_offset: offset, filename, data: Vec::new(), client: None, position: 0 }
    }

    /// A closed segment that starts at `offset` and holds `data`.
    pub fn with_data(partition_path: String, offset: u64, data: Vec<u8>) -> (segment: Segment)
        ensures
            segment@ == SegmentView::stored(partition_path@, offset, data@),
    {
        let filename = log_filename(&partition_path, offset);
        Segment { base_offset: offset, filename, data, client: None, position: 0 }
    }

    /// Opens the segment in the role `client`. Its bytes stay as they are, and
    /// reading starts at the first of them.
    pub fn open(&mut self, client: Client)
        ensures
            final(self)@ == old(self)@.opened(client),
    {
        self.client = Some(client);
        self.position = 0;
    }

    /// Closes the segment.
    pub fn close(&mut self)
        ensures
            final(self)@ == old(self)@.closed(),
    {
        self.client = None;
        self.position = 0;
    }

    /// Number of bytes in the segment.
    pub fn len(&self) -> (len: u64)
        ensures
            len == self@.data.len(),
    {
        self.data.len() as u64
    }

    /// Offset of the segment's first byte.
    pub fn base_offset(&self) -> (offset: Offset)
        ensures
            offset == self@.base_offset,
    {
        self.base_offset
    }

    /// Path of the segment's file.
    pub fn filename(&self) -> (name: &String)
        ensures
            name@ == self@.filename,
    {
        &self.filename
    }

    /// The role the segment is open in.
    pub fn client(&self) -> (client: Option<Client>)
        ensures
            client == self@.client,
    {
        self.client
    }

    /// Where the next read starts.
    pub fn position(&self) -> (position: u64)
        ensures
            position == self@.position,
    {
        self.position
    }

    /// The bytes of the segment.
    pub fn data(&self) -> (data: &Vec<u8>)
        ensures
            data@ == self@.data,
    {
        &self.data
    }

    /// Appends `buf` to a segment that is open for a producer and returns how
    /// many bytes were appended: all of them. On any other segment nothing
    /// changes and the call fails.
    pub fn write(&mut self, buf: &[u8]) -> (r: Result<usize, SegmentError>)
        ensures
            old(self)@.writable() ==> r == Ok::<usize, SegmentError>(buf@.len() as usize)
                && final(self)@ == old(self)@.appended(buf@),
            !old(self)@.writable() ==> r == Err::<usize, SegmentError>(
                SegmentError::CapabilityMismatch,
            ) && final(self)@ == old(self)@,
    {
        match self.client {
            Some(Client::Producer) => {
                let mut i: usize = 0;
                while i < buf.len()
                    invariant
                        i <= buf@.len(),
                        self.data@ == old(self).data@ + buf@.take(i as int),
                        self.base_offset == old(self).base_offset,
                        self.filename == old(self).filename,
                        self.client == old(self).client,
                        self.position == old(self).position,
                    decreases buf@.len() - i,
                {
                    self.data.push(buf[i]);
                    i = i + 1;
                    assert(self.data@ =~= old(self).data@ + buf@.take(i as int));
                }
                assert(buf@.take(i as int) =~= buf@);
                Ok(buf.len())
            },
            _ => Err(SegmentError::CapabilityMismatch),
        }
    }

    /// Copies bytes from the read position of a segment that is open for a
    /// consumer into the front of `buf`, as many as are left and fit, and moves
    /// the position behind them. On any other segment nothing changes and the
    /// call fails.
    pub fn read(&mut self, buf: &mut [u8]) -> (r: Result<usize, SegmentError>)
        ensures
            final(buf)@.len() == old(buf)@.len(),
            old(self)@.readable() ==> {
                let n = old(self)@.read_len(old(buf)@.len());
                &&& r == Ok::<usize, SegmentError>(n as usize)
                &&& final(self)@ == old(self)@.at((old(self)@.position + n) as u64)
                &&& final(buf)@ == old(self)@.read_bytes(old(buf)@.len()) + old(buf)@.skip(
                    n as int,
                )
            },
            !old(self)@.readable() ==> r == Err::<usize, SegmentError>(
                SegmentError::CapabilityMismatch,
            ) && final(self)@ == old(self)@ && final(buf)@ == old(buf)@,
    {
        match self.client {
            Some(Client::Consumer) => {},
            _ => {
                return Err(SegmentError::CapabilityMismatch);
            },
        }
        let len: usize = self.data.len();
        if self.position >= len as u64 {
            assert(Seq::<u8>::empty() + buf@.skip(0) =~= buf@);
            return Ok(0);
        }
        let start: usize = self.position as usize;
        let left: usize = len - start;
        let n: usize = if left < buf.len() {
            left
        } else {
            buf.len()
        };
        let mut i: usize = 0;
        while i < n
            invariant
                i <= n,
                start + n <= self.data@.len() == len,
                n <= buf@.len(),
                buf@.len() == old(buf)@.len(),
                buf@ == self.data@.subrange(start as int, start + i) + old(buf)@.skip(i as int),
            decreases n - i,
        {
            buf[i] = self.data[start + i];
            i = i + 1;
            assert(buf@ =~= self.data@.subrange(start as int, start + i) + old(buf)@.skip(
                i as int,
            ));
        }
        self.position = (start + n) as u64;
        Ok(n)
    }

    /// Moves the read position of an open segment to `position`, counted from
    /// the segment's first byte, and returns it. A closed segment has no position
    /// to move: it stays as it is and the call returns 0.
    pub fn seek(&mut self, position: u64) -> (at: u64)
        ensures
            old(self)@.client is Some ==> at == position && final(self)@ == old(self)@.at(
                position,
            ),
            old(self)@.client is None ==> at == 0 && final(self)@ == old(self)@,
    {
        match self.client {
            Some(_) => {
                self.position = position;
                position
            },
            None => 0,
        }
    }

    /// Reads the record at the read position of a segment that is open for a
    /// consumer: the bytes up to and with the next newline, or up to the end of
    /// the segment where no newline follows; nothing at the end of the segment.
    /// The position moves behind the record. On any other segment nothing
    /// changes and the call fails.
    pub fn read_record(&mut self) -> (r: Result<Vec<u8>, SegmentError>)
        ensures
            old(self)@.readable() ==> r is Ok && r.unwrap()@ == spec_next_record(
                old(self)@.data,
                old(self)@.position as int,
            ) && final(self)@ == old(self)@.at((old(self)@.position + r.unwrap()@.len()) as u64),
            !old(self)@.readable() ==> r == Err::<Vec<u8>, SegmentError>(
                SegmentError::CapabilityMismatch,
            ) && final(self)@ == old(self)@,
    {
        match self.client {
            Some(Client::Consumer) => {},
            _ => {
                return Err(SegmentError::CapabilityMismatch);
            },
        }
        let len: usize = self.data.len();
        if self.position >= len as u64 {
            return Ok(Vec::new());
        }
        let start: usize = self.position as usize;
        let end: usize = next_record_end(self.data.as_slice(), start);
        let record = slice_to_vec(slice_subrange(self.data.as_slice(), start, end));
        self.position = end as u64;
        Ok(record)
    }
}

} // verus!
