use logbroker::segment::{Client, Segment, SegmentError};
use logbroker::segment_order::precedes;

const DATA: &[u8] = b"WOMBIESTWOODBINE";

#[test]
fn test_new_segment() {
    let segment = Segment::new(String::from("."), 0);
    assert_eq!(segment.base_offset(), 0);
}

#[test]
fn test_segment_consumer_seeks() {
    let mut segment = Segment::new(String::from("."), 0);

    segment.open(Client::Producer);
    let bytes = String::from("wombiest");
    let n = segment.write(bytes.as_bytes()).expect("writing eight bytes");
    assert_eq!(n, 8);
    segment.close();

    segment.open(Client::Consumer);
    segment.seek(4);
    let mut buf = [0; 4];
    let n = segment.read(&mut buf).expect("writing eight bytes");
    assert_eq!(n, 4);
    assert_eq!(&buf, b"iest");
}

#[test]
fn test_segment_consumer_reads() {
    let mut segment = Segment::new(String::from("."), 0);

    segment.open(Client::Producer);
    let bytes = String::from("wombiest");
    let n = segment.write(bytes.as_bytes()).expect("writing eight bytes");
    assert_eq!(n, 8);
    segment.close();

    segment.open(Client::Consumer);
    let mut buf = [0; 8];
    let n = segment.read(&mut buf).expect("writing eight bytes");

    assert_eq!(n, 8);
    assert_eq!(&buf, b"wombiest");
}

#[test]
fn test_segment_producer_writes() {
    let mut segment = Segment::new(String::from("."), 0);
    segment.open(Client::Producer);
    let bytes = String::from("wombiest");
    let n = segment.write(bytes.as_bytes()).expect("writing eight bytes");
    assert_eq!(n, 8);
}

#[test]
fn test_segment_fails_when_producer_reads() {
    let mut segment = Segment::new(String::from("."), 0);
    segment.open(Client::Producer);
    let bytes = String::from("wombiest");
    segment.write(bytes.as_bytes()).expect("write to file");

    let mut buf = [0; 8];
    let result = segment.read(&mut buf);
    assert!(result.is_err(), "producer shouldn't read");
}

#[test]
fn test_segment_fails_when_consumer_write() {
    let mut segment = Segment::new(String::from("."), 0);
    segment.open(Client::Consumer);
    let bytes = String::from("wombiest");
    let result = segment.write(bytes.as_bytes());
    assert!(result.is_err(), "consumer shouldn't write");
}

#[test]
fn new_segment_is_named_by_its_base_offset() {
    let segment = Segment::new(String::from("tmp/"), 0);
    assert_eq!(segment.base_offset(), 0);
    assert_eq!(segment.filename(), "tmp//00000000000000000000.log");
    assert_eq!(segment.len(), 0);
    assert_eq!(segment.client(), None);
    assert_eq!(segment.position(), 0);

    let far = Segment::new(String::from("topic/3"), u64::MAX);
    assert_eq!(far.filename(), "topic/3/18446744073709551615.log");
    let mid = Segment::new(String::from("t"), 1234567890);
    assert_eq!(mid.filename(), "t/00000000001234567890.log");
}

#[test]
fn consumer_can_seek() {
    let mut segment = Segment::new(String::from("tmp/"), 0);
    segment.open(Client::Producer);
    let n = segment.write(DATA).expect("writing sixteen bytes");
    assert_eq!(n, 16);
    segment.close();

    segment.open(Client::Consumer);
    assert_eq!(segment.seek(4), 4);
    let mut buf = [0; 4];
    let n = segment.read(&mut buf).expect("reading 4 bytes");
    assert_eq!(n, 4);
    assert_eq!(&buf, b"IEST");
    assert_eq!(segment.position(), 8);
}

#[test]
fn consumer_can_read() {
    let mut segment = Segment::new(String::from("tmp/"), 0);
    segment.open(Client::Producer);
    segment.write(DATA).expect("writing sixteen bytes");
    segment.close();

    segment.open(Client::Consumer);
    let mut buf = [0; 8];
    let n = segment.read(&mut buf).expect("reading eight bytes");
    assert_eq!(n, 8);
    assert_eq!(&buf, b"WOMBIEST");
    let n = segment.read(&mut buf).expect("reading eight bytes more");
    assert_eq!(n, 8);
    assert_eq!(&buf, b"WOODBINE");
    let n = segment.read(&mut buf).expect("reading at the end");
    assert_eq!(n, 0);
    assert_eq!(&buf, b"WOODBINE");
}

#[test]
fn consumer_cannot_write() {
    let mut segment = Segment::new(String::from("tmp/"), 0);
    segment.open(Client::Consumer);
    let result = segment.write(DATA);
    assert_eq!(result, Err(SegmentError::CapabilityMismatch));
    assert_eq!(segment.len(), 0);
}

#[test]
fn producer_writes() {
    let mut segment = Segment::new(String::from("tmp/"), 0);
    segment.open(Client::Producer);
    let n = segment.write(DATA).expect("writing sixteen bytes");
    assert_eq!(n, 16);
    assert_eq!(segment.len(), 16);
    assert_eq!(segment.data().as_slice(), DATA);
}

#[test]
fn producer_cannot_read() {
    let mut segment = Segment::new(String::from("tmp/"), 0);
    segment.open(Client::Producer);
    segment.write(DATA).expect("write to file");

    let mut buf = [0; 8];
    let result = segment.read(&mut buf);
    assert_eq!(result, Err(SegmentError::CapabilityMismatch));
    assert_eq!(&buf, &[0u8; 8]);
    assert_eq!(segment.read_record(), Err(SegmentError::CapabilityMismatch));
}

#[test]
fn closed_segment_refuses_reads_and_writes() {
    let mut segment = Segment::new(String::from("tmp"), 7);
    assert_eq!(segment.write(DATA), Err(SegmentError::CapabilityMismatch));
    let mut buf = [0; 4];
    assert_eq!(segment.read(&mut buf), Err(SegmentError::CapabilityMismatch));
    assert_eq!(segment.read_record(), Err(SegmentError::CapabilityMismatch));
    assert_eq!(segment.seek(3), 0);
    assert_eq!(segment.position(), 0);
    assert_eq!(segment.len(), 0);
}

#[test]
fn read_copies_no_more_than_is_left() {
    let mut segment = Segment::with_data(String::from("tmp"), 0, b"abc".to_vec());
    segment.open(Client::Consumer);
    assert_eq!(segment.seek(1), 1);
    let mut buf = [9u8; 5];
    assert_eq!(segment.read(&mut buf), Ok(2));
    assert_eq!(&buf, &[b'b', b'c', 9, 9, 9]);
    assert_eq!(segment.seek(10), 10);
    assert_eq!(segment.read(&mut buf), Ok(0));
    assert_eq!(&buf, &[b'b', b'c', 9, 9, 9]);
}

#[test]
fn read_record_stops_behind_each_newline() {
    let mut segment = Segment::with_data(String::from("tmp"), 0, b"aaaa\nbbbb\ncc".to_vec());
    segment.open(Client::Consumer);
    assert_eq!(segment.read_record(), Ok(b"aaaa\n".to_vec()));
    assert_eq!(segment.position(), 5);
    assert_eq!(segment.read_record(), Ok(b"bbbb\n".to_vec()));
    assert_eq!(segment.read_record(), Ok(b"cc".to_vec()));
    assert_eq!(segment.position(), 12);
    assert_eq!(segment.read_record(), Ok(Vec::new()));
    assert_eq!(segment.position(), 12);
}

#[test]
fn opening_resets_the_position_and_keeps_the_bytes() {
    let mut segment = Segment::with_data(String::from("tmp"), 0, b"abcdef".to_vec());
    segment.open(Client::Consumer);
    segment.seek(4);
    segment.open(Client::Producer);
    assert_eq!(segment.client(), Some(Client::Producer));
    assert_eq!(segment.position(), 0);
    assert_eq!(segment.write(b"gh"), Ok(2));
    segment.close();
    assert_eq!(segment.client(), None);
    assert_eq!(segment.data().as_slice(), b"abcdefgh");
}

#[test]
fn segments_order_by_base_offset() {
    let low = Segment::with_data(String::from("a"), 3, b"zzz".to_vec());
    let high = Segment::new(String::from("b"), 10);
    let same = Segment::new(String::from("c"), 3);
    assert!(low < high);
    assert!(high > low);
    assert!(low == same);
    assert!(low <= same);
    assert!(precedes(&low, &high));
    assert!(!precedes(&high, &low));
    assert!(!precedes(&low, &same));
    assert_eq!(low.partial_cmp(&high), Some(std::cmp::Ordering::Less));
    assert_eq!(high.partial_cmp(&low), Some(std::cmp::Ordering::Greater));
    assert_eq!(low.partial_cmp(&same), Some(std::cmp::Ordering::Equal));
}

#[test]
fn segment_error_has_a_message() {
    assert_eq!(
        SegmentError::CapabilityMismatch.message(),
        "segment is not open in the role this operation needs"
    );
}
