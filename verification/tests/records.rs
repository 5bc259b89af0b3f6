use logbroker::records::{check_record, next_record_end, NEWLINE};

#[test]
fn newline_ends_a_record() {
    assert_eq!(NEWLINE, b'\n');
}

#[test]
fn next_record_end_lies_behind_the_next_newline() {
    let data = b"aaaa\nbbbb\ncc";
    assert_eq!(next_record_end(data, 0), 5);
    assert_eq!(next_record_end(data, 2), 5);
    assert_eq!(next_record_end(data, 4), 5);
    assert_eq!(next_record_end(data, 5), 10);
    assert_eq!(next_record_end(data, 10), 12);
    assert_eq!(next_record_end(data, 12), 12);
    assert_eq!(next_record_end(b"", 0), 0);
    assert_eq!(next_record_end(b"\n\n", 0), 1);
    assert_eq!(next_record_end(b"\n\n", 1), 2);
}

#[test]
fn a_record_ends_with_its_only_newline() {
    assert!(check_record(b"aaaa\n"));
    assert!(check_record(b"\n"));
    assert!(check_record(b"\0\n"));
    assert!(!check_record(b""));
    assert!(!check_record(b"aaaa"));
    assert!(!check_record(b"aa\naa\n"));
    assert!(!check_record(b"\n\n"));
    assert!(!check_record(b"aa\nb"));
}
