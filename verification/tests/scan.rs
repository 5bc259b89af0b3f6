use logbroker::partition::{Partition, PartitionError};
use logbroker::scan::{parse_names, scan_topic, sorted_segments, StoredFile};

fn names(list: &[&str]) -> Vec<StoredFile> {
    list.iter()
        .map(|name| StoredFile { name: name.as_bytes().to_vec(), data: b"bytes\n".to_vec() })
        .collect()
}

#[test]
fn parse_names_keeps_the_order_of_the_names() {
    let listing = names(&["00000000000000000034.log", "00000000000000000000.log", "7.log"]);
    assert_eq!(parse_names(&listing), Ok(vec![34, 0, 7]));
    assert_eq!(parse_names(&Vec::new()), Ok(Vec::new()));
    assert_eq!(
        parse_names(&names(&["0.log", "readme.md"])),
        Err(PartitionError::InvalidSegmentName)
    );
}

#[test]
fn scan_topic_finds_the_largest_base_offset_and_counts() {
    let listing = names(&[
        "00000000000000000034.log",
        "00000000000000000000.log",
        "00000000000000000070.log",
        "00000000000000000040.log",
    ]);
    assert_eq!(scan_topic(&listing), Ok((70, 4)));
    assert_eq!(scan_topic(&names(&["00000000000000000000.log"])), Ok((0, 1)));
    assert_eq!(scan_topic(&names(&["5.log", "5.txt"])), Ok((5, 2)));
    assert_eq!(scan_topic(&Vec::new()), Ok((0, 1)));
}

#[test]
fn scan_topic_refuses_a_name_that_is_no_offset() {
    assert_eq!(
        scan_topic(&names(&["00000000000000000000.log", "lost+found"])),
        Err(PartitionError::InvalidSegmentName)
    );
    assert_eq!(
        scan_topic(&names(&["99999999999999999999.log"])),
        Err(PartitionError::InvalidSegmentName)
    );
}

#[test]
fn sorted_segments_orders_the_base_offsets() {
    let listing = names(&[
        "00000000000000000034.log",
        "00000000000000000000.log",
        "00000000000000000070.log",
        "00000000000000000040.log",
    ]);
    assert_eq!(sorted_segments(&listing), Ok(vec![0, 34, 40, 70]));
    assert_eq!(sorted_segments(&names(&["3.log", "1.log", "3.txt", "2.log"])), Ok(vec![1, 2, 3, 3]));
    assert_eq!(sorted_segments(&Vec::new()), Ok(Vec::new()));
    assert_eq!(
        sorted_segments(&names(&["1.log", "x"])),
        Err(PartitionError::InvalidSegmentName)
    );
}

#[test]
fn scan_topic_counts_as_recovery_does() {
    let empty: Vec<StoredFile> = Vec::new();
    let fresh = Partition::recover(String::from("topic"), 0, &empty).expect("recover");
    let (base, count) = scan_topic(&empty).expect("scan");
    assert_eq!((base, count), (0, 1));
    assert_eq!(fresh.active_base_offset(), base);
    assert_eq!(fresh.segment_count(), count as u64);

    let listing = names(&["00000000000000000034.log", "00000000000000000000.log"]);
    let recovered = Partition::recover(String::from("topic"), 0, &listing).expect("recover");
    let (base, count) = scan_topic(&listing).expect("scan");
    assert_eq!((base, count), (34, 2));
    assert_eq!(recovered.active_base_offset(), base);
    assert_eq!(recovered.segment_count(), count as u64);
}
