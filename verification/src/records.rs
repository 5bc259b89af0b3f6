//! Records: runs of bytes that end with a newline.

use vstd::prelude::*;

verus! {

/// The byte that ends a record.
pub const NEWLINE: u8 = 10;

/// Whether `bytes` is one whole record: it ends with a newline and holds no
/// other.
pub open spec fn is_record(bytes: Seq<u8>) -> bool {
    &&& bytes.len() > 0
    &&& bytes.last() == NEWLINE
    &&& forall|i: int| 0 <= i < bytes.len() - 1 ==> #[trigger] bytes[i] != NEWLINE
}

/// Where the record that starts at `pos` ends: just behind the first newline
/// at or after `pos`, or at the end of `data` where no newline follows.
pub open spec fn record_end(data: Seq<u8>, pos: int) -> int
    decreases data.len() - pos,
{
    if pos >= data.len() {
        data.len() as int
    } else if data[pos] == NEWLINE {
        pos + 1
    } else {
        record_end(data, pos + 1)
    }
}

/// The record that starts at `pos`, empty where `pos` is not inside `data`.
pub open spec fn spec_next_record(data: Seq<u8>, pos: int) -> Seq<u8> {
    if 0 <= pos < data.len() {
        data.subrange(pos, record_end(data, pos))
    } else {
        Seq::empty()
    }
}

/// Finds the end of the record that starts at `pos`.
pub fn next_record_end(data: &[u8], pos: usize) -> (end: usize)
    requires
        pos <= data@.len(),
    ensures
        end == record_end(data@, pos as int),
        pos <= end <= data@.len(),
{
    let mut i: usize = pos;
    while i < data.len()
        invariant
            pos <= i <= data@.len(),
            record_end(data@, pos as int) == record_end(data@, i as int),
        decreases data@.len() - i,
    {
        if data[i] == NEWLINE {
            return i + 1;
        }
        i = i + 1;
    }
    i
}

/// Whether `bytes` is one whole record.
pub fn check_record(bytes: &[u8]) -> (r: bool)
    ensures
        r == is_record(bytes@),
{
    if bytes.len() == 0 {
        return false;
    }
    let end = next_record_end(bytes, 0);
    proof {
        lemma_record_end_first_newline(bytes@, 0);
        if is_record(bytes@) {
            lemma_record_end_is(bytes@, 0, bytes@.len() as int);
        }
    }
    end == bytes.len() && bytes[bytes.len() - 1] == NEWLINE
}

/// No newline stands between a record's start and its last byte, and the last
/// byte is a newline unless the record runs to the end of the data.
pub proof fn lemma_record_end_first_newline(data: Seq<u8>, pos: int)
    requires
        0 <= pos < data.len(),
    ensures
        pos < record_end(data, pos) <= data.len(),
        forall|i: int| pos <= i < record_end(data, pos) - 1 ==> #[trigger] data[i] != NEWLINE,
        record_end(data, pos) < data.len() ==> data[record_end(data, pos) - 1] == NEWLINE,
    decreases data.len() - pos,
{
    if data[pos] == NEWLINE {
        assert(record_end(data, pos) == pos + 1);
    } else if pos + 1 < data.len() {
        lemma_record_end_first_newline(data, pos + 1);
        assert(record_end(data, pos) == record_end(data, pos + 1));
    } else {
        assert(record_end(data, pos + 1) == data.len());
        assert(record_end(data, pos) == data.len());
    }
}

/// The record that starts at `pos` ends at `end` where no newline stands
/// before `end - 1` and `end` lies behind a newline or at the end of the data.
pub proof fn lemma_record_end_is(data: Seq<u8>, pos: int, end: int)
    requires
        0 <= pos < end <= data.len(),
        forall|i: int| pos <= i < end - 1 ==> #[trigger] data[i] != NEWLINE,
        data[end - 1] == NEWLINE || end == data.len(),
    ensures
        record_end(data, pos) == end,
    decreases end - pos,
{
    if pos + 1 == end {
        if data[pos] != NEWLINE {
            assert(record_end(data, pos + 1) == data.len());
        }
    } else {
        assert(data[pos] != NEWLINE);
        lemma_record_end_is(data, pos + 1, end);
    }
}

} // verus!
