use logbroker::naming::{
    file_stem_len, log_filename, parse_offset, partition_path, segment_file_name,
    segment_name_bytes, segment_offset,
};

#[test]
fn log_filename_pads_to_twenty_digits() {
    assert_eq!(log_filename(&String::from("topic"), 0), "topic/00000000000000000000.log");
    assert_eq!(log_filename(&String::from("topic"), 42), "topic/00000000000000000042.log");
    assert_eq!(
        log_filename(&String::from("a/b"), 18446744073709551615),
        "a/b/18446744073709551615.log"
    );
    assert_eq!(log_filename(&String::new(), 7), "/00000000000000000007.log");
}

#[test]
fn log_filename_agrees_with_std_formatting() {
    for offset in [0u64, 1, 9, 10, 99, 100, 12345, 1 << 32, u64::MAX - 1, u64::MAX] {
        assert_eq!(
            log_filename(&String::from("dir"), offset),
            format!("{}/{:0>20}.log", "dir", offset)
        );
        assert_eq!(segment_file_name(offset), format!("{:0>20}.log", offset));
        assert_eq!(segment_name_bytes(offset), format!("{:0>20}.log", offset).into_bytes());
    }
}

#[test]
fn partition_path_joins_topic_and_number() {
    assert_eq!(partition_path(&String::from("topic"), 0), "topic/0");
    assert_eq!(partition_path(&String::from("topic"), 7), "topic/7");
    assert_eq!(partition_path(&String::from("t"), 10), "t/10");
    assert_eq!(partition_path(&String::from("t"), u32::MAX), "t/4294967295");
}

#[test]
fn file_stem_is_what_stands_before_the_last_dot() {
    assert_eq!(file_stem_len(b"00000000000000000005.log"), 20);
    assert_eq!(file_stem_len(b"5.log"), 1);
    assert_eq!(file_stem_len(b"a.b.c"), 3);
    assert_eq!(file_stem_len(b"noext"), 5);
    assert_eq!(file_stem_len(b".hidden"), 7);
    assert_eq!(file_stem_len(b"trailing."), 8);
    assert_eq!(file_stem_len(b""), 0);
    assert_eq!(file_stem_len(b"."), 1);
}

#[test]
fn parse_offset_reads_decimal_digits() {
    assert_eq!(parse_offset(b"0"), Some(0));
    assert_eq!(parse_offset(b"00000000000000000042"), Some(42));
    assert_eq!(parse_offset(b"+17"), Some(17));
    assert_eq!(parse_offset(b"18446744073709551615"), Some(u64::MAX));
    assert_eq!(parse_offset(b"018446744073709551615"), Some(u64::MAX));
}

#[test]
fn parse_offset_refuses_what_is_no_offset() {
    assert_eq!(parse_offset(b""), None);
    assert_eq!(parse_offset(b"+"), None);
    assert_eq!(parse_offset(b"-1"), None);
    assert_eq!(parse_offset(b"++1"), None);
    assert_eq!(parse_offset(b"12a"), None);
    assert_eq!(parse_offset(b" 12"), None);
    assert_eq!(parse_offset(b"1 "), None);
    assert_eq!(parse_offset(b"18446744073709551616"), None);
    assert_eq!(parse_offset(b"99999999999999999999"), None);
    assert_eq!(parse_offset(b"184467440737095516150"), None);
}

#[test]
fn parse_offset_agrees_with_std_parsing() {
    let samples: [&str; 12] = [
        "0", "1", "+1", "-1", "", "+", "007", "18446744073709551615", "18446744073709551616",
        "1_000", "0x10", "12.5",
    ];
    for text in samples {
        assert_eq!(parse_offset(text.as_bytes()), text.parse::<u64>().ok(), "{:?}", text);
    }
}

#[test]
fn segment_offset_reads_the_stem_of_a_name() {
    assert_eq!(segment_offset(b"00000000000000000000.log"), Some(0));
    assert_eq!(segment_offset(b"00000000000000000032.log"), Some(32));
    assert_eq!(segment_offset(b"5.log"), Some(5));
    assert_eq!(segment_offset(b"5"), Some(5));
    assert_eq!(segment_offset(b"5.txt"), Some(5));
    assert_eq!(segment_offset(b"1.2.log"), None);
    assert_eq!(segment_offset(b".log"), None);
    assert_eq!(segment_offset(b"notes.log"), None);
    assert_eq!(segment_offset(b""), None);
}

#[test]
fn a_segment_name_gives_back_its_offset() {
    for offset in [0u64, 1, 5, 32, 33, 1_000_000, u64::MAX] {
        assert_eq!(segment_offset(&segment_name_bytes(offset)), Some(offset));
        assert_eq!(segment_offset(segment_file_name(offset).as_bytes()), Some(offset));
    }
}
