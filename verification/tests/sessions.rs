use logbroker::client::{
    check_handshake_written, producer_hello, ClientAction, ConsumerClient,
    HEARTBEAT_PAUSE_MILLIS,
};
use logbroker::consumer::{ConsumerAction, ConsumerSession, ConsumerState};
use logbroker::partition::{Partition, PartitionError};
use logbroker::scan::StoredFile;
use logbroker::producer::{ProducerAction, ProducerSession, ProducerState};
use logbroker::wire::{encode_offset, heartbeat, HandshakeError};

fn send(bytes: &[u8]) -> ConsumerAction {
    ConsumerAction::Send(bytes.to_vec())
}

#[test]
fn concrete_scenario() {
    let mut partition = Partition::new(String::from("topic"), 0);
    let mut producer = ProducerSession::new();
    assert_eq!(producer.start(&partition), ProducerAction::Read { segment: 0 });
    assert_eq!(
        producer.on_record(&mut partition, b"aaaa\n"),
        ProducerAction::Read { segment: 0 }
    );
    assert_eq!(
        producer.on_record(&mut partition, b"bbbb\n"),
        ProducerAction::Read { segment: 0 }
    );
    assert_eq!(partition.write_offset(), 10);

    let mut consumer = ConsumerSession::new();
    assert_eq!(consumer.on_handshake(&mut partition, &encode_offset(0)), send(b"aaaa\n"));
    assert_eq!(consumer.offset(), 0);
    assert_eq!(consumer.on_written(&mut partition), send(b"bbbb\n"));
    assert_eq!(consumer.offset(), 5);
    assert_eq!(consumer.on_written(&mut partition), ConsumerAction::Heartbeat);
    assert_eq!(consumer.offset(), 10);
    assert_eq!(consumer.state(), ConsumerState::Heartbeating);
    assert_eq!(consumer.on_written(&mut partition), ConsumerAction::Heartbeat);
    assert_eq!(consumer.on_written(&mut partition), ConsumerAction::Heartbeat);
    assert_eq!(consumer.offset(), 10);

    assert_eq!(
        producer.on_record(&mut partition, b"cccc\n"),
        ProducerAction::Read { segment: 0 }
    );
    assert_eq!(consumer.on_written(&mut partition), send(b"cccc\n"));
    assert_eq!(consumer.state(), ConsumerState::Tailing);
    assert_eq!(consumer.in_flight(), 5);
    assert_eq!(consumer.on_written(&mut partition), ConsumerAction::Heartbeat);
    assert_eq!(consumer.offset(), 15);
}

#[test]
fn what_is_appended_is_what_is_read() {
    let mut partition = Partition::new(String::from("topic"), 0);
    let mut producer = ProducerSession::new();
    producer.start(&partition);
    let mut records: Vec<Vec<u8>> = Vec::new();
    for i in 0..60usize {
        let mut record = vec![b'a' + (i % 26) as u8; (i * 7) % 23];
        record.push(b'\n');
        match producer.on_record(&mut partition, &record) {
            ProducerAction::Read { segment } => assert_eq!(segment, partition.active_base_offset()),
            other => panic!("{:?}", other),
        }
        records.push(record);
    }
    assert!(partition.segments().len() > 3);

    let mut consumer = ConsumerSession::new();
    let mut action = consumer.on_handshake(&mut partition, &encode_offset(0));
    let mut expected_offset: u64 = 0;
    for record in &records {
        assert_eq!(consumer.offset(), expected_offset);
        assert_eq!(action, ConsumerAction::Send(record.clone()));
        expected_offset += record.len() as u64;
        action = consumer.on_written(&mut partition);
    }
    assert_eq!(action, ConsumerAction::Heartbeat);
    assert_eq!(consumer.offset(), partition.write_offset());
    assert_eq!(consumer.offset(), expected_offset);
}

#[test]
fn a_consumer_at_a_segment_boundary_is_served_that_segments_first_byte() {
    let mut partition = Partition::new(String::from("topic"), 0);
    let mut long = vec![b'x'; 39];
    long.push(b'\n');
    partition.append(&long).expect("append");
    partition.append(b"second\n").expect("append");
    partition.append(b"0123456789012345678\n").expect("append");
    partition.append(b"third\n").expect("append");
    assert_eq!(partition.segment_offsets(), vec![0, 40, 67]);

    let mut consumer = ConsumerSession::new();
    assert_eq!(consumer.on_handshake(&mut partition, &encode_offset(40)), send(b"second\n"));
    assert_eq!(consumer.offset(), 40);
    assert_eq!(consumer.on_written(&mut partition), send(b"0123456789012345678\n"));
    assert_eq!(consumer.offset(), 47);
    assert_eq!(consumer.on_written(&mut partition), send(b"third\n"));
    assert_eq!(consumer.offset(), 67);
    assert_eq!(consumer.on_written(&mut partition), ConsumerAction::Heartbeat);
    assert_eq!(consumer.offset(), 73);

    let mut other = ConsumerSession::new();
    assert_eq!(other.on_handshake(&mut partition, &encode_offset(67)), send(b"third\n"));
    assert_eq!(partition.segments()[2].data()[0], b't');
}

#[test]
fn a_consumer_may_start_inside_a_record() {
    let mut partition = Partition::new(String::from("topic"), 0);
    partition.append(b"aaaa\n").expect("append");
    partition.append(b"bbbb\n").expect("append");
    let mut consumer = ConsumerSession::new();
    assert_eq!(consumer.on_handshake(&mut partition, &encode_offset(7)), send(b"bb\n"));
    assert_eq!(consumer.on_written(&mut partition), ConsumerAction::Heartbeat);
    assert_eq!(consumer.offset(), 10);
}

#[test]
fn a_consumer_ahead_of_the_data_gets_heartbeats() {
    let mut partition = Partition::new(String::from("topic"), 0);
    partition.append(b"aaaa\n").expect("append");
    let mut consumer = ConsumerSession::new();
    assert_eq!(
        consumer.on_handshake(&mut partition, &encode_offset(1000)),
        ConsumerAction::Heartbeat
    );
    assert_eq!(consumer.offset(), 1000);
    assert_eq!(consumer.on_written(&mut partition), ConsumerAction::Heartbeat);
    assert_eq!(consumer.offset(), 1000);
}

#[test]
fn a_consumer_before_the_first_segment_gets_heartbeats() {
    let files = vec![StoredFile { name: b"50.log".to_vec(), data: b"late\n".to_vec() }];
    let mut partition = Partition::recover(String::from("t"), 0, &files).expect("recover");
    let mut consumer = ConsumerSession::new();
    assert_eq!(consumer.on_handshake(&mut partition, &encode_offset(3)), ConsumerAction::Heartbeat);
    assert_eq!(consumer.state(), ConsumerState::Heartbeating);
    assert_eq!(consumer.on_written(&mut partition), ConsumerAction::Heartbeat);
    assert_eq!(consumer.offset(), 3);
}

#[test]
fn a_short_handshake_closes_the_session() {
    let mut partition = Partition::new(String::from("topic"), 0);
    let mut consumer = ConsumerSession::new();
    assert_eq!(consumer.state(), ConsumerState::AwaitingOffset);
    assert_eq!(consumer.on_handshake(&mut partition, &[0, 0, 0, 0, 0, 0, 1]), ConsumerAction::Close);
    assert_eq!(consumer.state(), ConsumerState::Closed);
    assert_eq!(consumer.on_written(&mut partition), ConsumerAction::Close);
    assert_eq!(consumer.on_handshake(&mut partition, &encode_offset(0)), ConsumerAction::Close);
    assert_eq!(consumer.state(), ConsumerState::Closed);
}

#[test]
fn a_second_handshake_closes_the_session() {
    let mut partition = Partition::new(String::from("topic"), 0);
    partition.append(b"aaaa\n").expect("append");
    let mut consumer = ConsumerSession::new();
    assert_eq!(consumer.on_handshake(&mut partition, &encode_offset(0)), send(b"aaaa\n"));
    assert_eq!(consumer.on_handshake(&mut partition, &encode_offset(0)), ConsumerAction::Close);
    assert_eq!(consumer.state(), ConsumerState::Closed);
    assert_eq!(consumer.offset(), 0);
}

#[test]
fn writing_before_the_handshake_closes_the_session() {
    let mut partition = Partition::new(String::from("topic"), 0);
    let mut consumer = ConsumerSession::new();
    assert_eq!(consumer.on_written(&mut partition), ConsumerAction::Close);
    assert_eq!(consumer.state(), ConsumerState::Closed);
}

#[test]
fn a_failed_write_leaves_the_offset_before_the_record_in_flight() {
    let mut partition = Partition::new(String::from("topic"), 0);
    partition.append(b"aaaa\n").expect("append");
    partition.append(b"bbbb\n").expect("append");
    let mut consumer = ConsumerSession::new();
    assert_eq!(consumer.on_handshake(&mut partition, &encode_offset(0)), send(b"aaaa\n"));
    assert_eq!(consumer.on_written(&mut partition), send(b"bbbb\n"));
    assert_eq!(consumer.in_flight(), 5);
    assert_eq!(consumer.on_failure(), ConsumerAction::Close);
    assert_eq!(consumer.state(), ConsumerState::Closed);
    assert_eq!(consumer.offset(), 5);
    assert_eq!(consumer.in_flight(), 0);
}

#[test]
fn a_consumer_reads_on_in_a_segment_that_outgrew_its_range() {
    let mut partition = Partition::new(String::from("topic"), 0);
    let mut long = vec![b'x'; 39];
    long.push(b'\n');
    let mut first = ProducerSession::new();
    let mut second = ProducerSession::new();
    first.start(&partition);
    second.start(&partition);
    assert_eq!(first.on_record(&mut partition, &long), ProducerAction::Read { segment: 40 });
    assert_eq!(second.segment(), 0);
    assert_eq!(second.on_record(&mut partition, b"late\n"), ProducerAction::Read { segment: 40 });
    assert_eq!(second.segment(), 40);
    assert_eq!(partition.segments()[0].len(), 45);
    assert_eq!(partition.write_offset(), 45);

    let mut consumer = ConsumerSession::new();
    assert_eq!(consumer.on_handshake(&mut partition, &encode_offset(0)), send(&long));
    assert_eq!(consumer.on_written(&mut partition), send(b"late\n"));
    assert_eq!(consumer.on_written(&mut partition), ConsumerAction::Heartbeat);
    assert_eq!(consumer.offset(), 45);
}

#[test]
fn producer_goes_through_its_states() {
    let mut partition = Partition::new(String::from("topic"), 0);
    let mut producer = ProducerSession::new();
    assert_eq!(producer.state(), ProducerState::AwaitingHandshake);
    assert_eq!(producer.start(&partition), ProducerAction::Read { segment: 0 });
    assert_eq!(producer.state(), ProducerState::Streaming);
    assert_eq!(producer.on_record(&mut partition, b"a\n"), ProducerAction::Read { segment: 0 });
    assert_eq!(producer.on_record(&mut partition, b""), ProducerAction::Finish);
    assert_eq!(producer.state(), ProducerState::Closed);
    assert_eq!(
        producer.on_record(&mut partition, b"b\n"),
        ProducerAction::Abort { reason: None }
    );
    assert_eq!(partition.write_offset(), 2);
    assert_eq!(producer.start(&partition), ProducerAction::Abort { reason: None });
}

#[test]
fn producer_that_was_not_announced_takes_no_record() {
    let mut partition = Partition::new(String::from("topic"), 0);
    let mut producer = ProducerSession::new();
    assert_eq!(
        producer.on_record(&mut partition, b"a\n"),
        ProducerAction::Abort { reason: None }
    );
    assert_eq!(producer.state(), ProducerState::Closed);
    assert_eq!(partition.write_offset(), 0);
}

#[test]
fn producer_moves_on_to_the_new_segment_after_a_rollover() {
    let mut partition = Partition::new(String::from("topic"), 0);
    let mut producer = ProducerSession::new();
    producer.start(&partition);
    assert_eq!(
        producer.on_record(&mut partition, b"0123456789012345678901234567890\n"),
        ProducerAction::Read { segment: 0 }
    );
    assert_eq!(producer.on_record(&mut partition, b"x\n"), ProducerAction::Read { segment: 34 });
    assert_eq!(producer.segment(), 34);
    assert_eq!(producer.on_record(&mut partition, b"y\n"), ProducerAction::Read { segment: 34 });
    assert_eq!(partition.segments()[0].len(), 34);
    assert_eq!(partition.segments()[1].data().as_slice(), b"y\n");
}

#[test]
fn producer_aborts_where_the_append_is_refused() {
    let files = vec![StoredFile { name: b"18446744073709551615.log".to_vec(), data: Vec::new() }];
    let mut partition = Partition::recover(String::from("t"), 0, &files).expect("recover");
    let mut producer = ProducerSession::new();
    producer.start(&partition);
    assert_eq!(
        producer.on_record(&mut partition, b"a\n"),
        ProducerAction::Abort { reason: Some(PartitionError::OffsetOverflow) }
    );
    assert_eq!(producer.state(), ProducerState::Closed);

    let mut stale = ProducerSession::new();
    stale.start(&partition);
    partition.fill_segments(&Vec::new()).expect("fill");
    assert_eq!(
        stale.on_record(&mut partition, b"a\n"),
        ProducerAction::Abort { reason: Some(PartitionError::SegmentNotFound) }
    );
    assert_eq!(partition.write_offset(), 0);
}

#[test]
fn producer_closes_on_failure() {
    let mut partition = Partition::new(String::from("topic"), 0);
    let mut producer = ProducerSession::new();
    producer.start(&partition);
    assert_eq!(producer.on_failure(), ProducerAction::Abort { reason: None });
    assert_eq!(producer.state(), ProducerState::Closed);
}

#[test]
fn consumer_client_counts_the_bytes_of_its_records() {
    let mut client = ConsumerClient::new(5);
    assert_eq!(client.handshake(), vec![42, 0, 0, 0, 0, 0, 0, 0, 5]);
    assert_eq!(client.on_line(b"bbbb\n"), ClientAction::Deliver { offset: 5 });
    assert_eq!(client.offset(), 10);
    assert_eq!(client.on_line(&heartbeat()), ClientAction::Wait);
    assert_eq!(client.offset(), 10);
    assert_eq!(client.on_line(b"c\n"), ClientAction::Deliver { offset: 10 });
    assert_eq!(client.offset(), 12);
    assert_eq!(client.on_line(b"\n"), ClientAction::Deliver { offset: 12 });
    assert_eq!(client.offset(), 13);
    assert_eq!(client.on_line(b""), ClientAction::Stop);
    assert_eq!(client.offset(), 13);
    assert_eq!(HEARTBEAT_PAUSE_MILLIS, 100);
}

#[test]
fn consumer_client_follows_a_broker_session() {
    let mut partition = Partition::new(String::from("topic"), 0);
    for line in [&b"one\n"[..], b"two\n", b"three\n"] {
        partition.append(line).expect("append");
    }
    let mut client = ConsumerClient::new(4);
    let hello = client.handshake();
    let mut session = ConsumerSession::new();
    let mut action = session.on_handshake(&mut partition, &hello[1..]);
    let mut delivered: Vec<(u64, Vec<u8>)> = Vec::new();
    loop {
        let line = match action {
            ConsumerAction::Send(record) => record,
            ConsumerAction::Heartbeat => heartbeat(),
            ConsumerAction::Close => Vec::new(),
        };
        match client.on_line(&line) {
            ClientAction::Deliver { offset } => delivered.push((offset, line)),
            ClientAction::Wait => break,
            ClientAction::Stop => panic!("stream ended"),
        }
        action = session.on_written(&mut partition);
    }
    assert_eq!(delivered, vec![(4, b"two\n".to_vec()), (8, b"three\n".to_vec())]);
    assert_eq!(client.offset(), 14);
    assert_eq!(session.offset(), 14);
}

#[test]
fn handshake_must_go_out_whole() {
    assert_eq!(check_handshake_written(8), Ok(()));
    assert_eq!(check_handshake_written(7), Err(HandshakeError::Incomplete));
    assert_eq!(check_handshake_written(0), Err(HandshakeError::Incomplete));
    assert_eq!(check_handshake_written(9), Err(HandshakeError::Incomplete));
    assert_eq!(producer_hello(), vec![78]);
}

#[test]
fn a_record_appended_to_the_open_segment_is_served_without_a_heartbeat() {
    let mut partition = Partition::new(String::from("topic"), 0);
    partition.append(b"aaaa\n").expect("append");
    partition.append(b"bbbb\n").expect("append");

    let mut consumer = ConsumerSession::new();
    assert_eq!(consumer.on_handshake(&mut partition, &encode_offset(0)), send(b"aaaa\n"));
    assert_eq!(consumer.on_written(&mut partition), send(b"bbbb\n"));
    assert_eq!(consumer.segment(), Some(0));

    partition.append(b"cccc\n").expect("append");
    assert_eq!(partition.write_offset(), 15);
    assert_eq!(consumer.on_written(&mut partition), send(b"cccc\n"));
    assert_eq!(consumer.offset(), 10);
    assert_eq!(consumer.state(), ConsumerState::Tailing);

    partition.append(b"dddd\n").expect("append");
    partition.append(b"eeee\n").expect("append");
    assert_eq!(consumer.on_written(&mut partition), send(b"dddd\n"));
    assert_eq!(consumer.on_written(&mut partition), send(b"eeee\n"));
    assert_eq!(consumer.on_written(&mut partition), ConsumerAction::Heartbeat);
    assert_eq!(consumer.offset(), 25);
    assert_eq!(consumer.segment(), None);
}

#[test]
fn a_record_appended_behind_a_rollover_is_served_without_a_heartbeat() {
    let mut partition = Partition::new(String::from("topic"), 0);
    partition.append(b"0123456789012345678901234567890\n").expect("append");
    let mut consumer = ConsumerSession::new();
    assert_eq!(
        consumer.on_handshake(&mut partition, &encode_offset(0)),
        send(b"0123456789012345678901234567890\n")
    );
    partition.append(b"x\n").expect("append");
    partition.append(b"y\n").expect("append");
    assert_eq!(partition.segment_offsets(), vec![0, 34]);
    assert_eq!(consumer.on_written(&mut partition), send(b"x\n"));
    assert_eq!(consumer.segment(), Some(0));
    assert_eq!(consumer.on_written(&mut partition), send(b"y\n"));
    assert_eq!(consumer.segment(), Some(34));
    assert_eq!(consumer.on_written(&mut partition), ConsumerAction::Heartbeat);
    assert_eq!(consumer.offset(), 36);
}

#[test]
fn a_consumer_leaves_the_partition_as_it_was() {
    let mut partition = Partition::new(String::from("topic"), 0);
    partition.append(b"aaaa\n").expect("append");
    let mut consumer = ConsumerSession::new();
    assert_eq!(consumer.on_handshake(&mut partition, &encode_offset(0)), send(b"aaaa\n"));
    assert_eq!(partition.segments()[0].client(), None);
    assert_eq!(partition.segments()[0].position(), 0);
    assert_eq!(partition.segments()[0].data().as_slice(), b"aaaa\n");
    assert_eq!(partition.write_offset(), 5);
    assert_eq!(partition.append(b"bbbb\n"), Ok(logbroker::partition::AppendOutcome::Unchanged));
    assert_eq!(consumer.on_written(&mut partition), send(b"bbbb\n"));
}

#[test]
fn a_session_whose_segment_is_gone_starts_the_walk_anew() {
    let files = vec![StoredFile { name: b"50.log".to_vec(), data: b"late\nmore\n".to_vec() }];
    let mut partition = Partition::recover(String::from("t"), 0, &files).expect("recover");
    let mut consumer = ConsumerSession::new();
    assert_eq!(consumer.on_handshake(&mut partition, &encode_offset(50)), send(b"late\n"));
    assert_eq!(consumer.segment(), Some(50));
    let other = vec![StoredFile { name: b"40.log".to_vec(), data: b"0123456789abcdefgh\n".to_vec() }];
    partition.fill_segments(&other).expect("fill");
    assert_eq!(consumer.on_written(&mut partition), send(b"fgh\n"));
    assert_eq!(consumer.segment(), Some(40));
    assert_eq!(consumer.on_written(&mut partition), ConsumerAction::Heartbeat);
    assert_eq!(consumer.offset(), 59);
}

#[test]
fn producer_asks_before_the_host_writes() {
    let mut partition = Partition::new(String::from("topic"), 0);
    let mut producer = ProducerSession::new();
    producer.start(&partition);
    assert_eq!(producer.refusal(&partition, b"a\n"), None);
    assert_eq!(producer.on_record(&mut partition, b"a\n"), ProducerAction::Read { segment: 0 });

    let files = vec![StoredFile { name: b"18446744073709551615.log".to_vec(), data: Vec::new() }];
    let mut full = Partition::recover(String::from("t"), 0, &files).expect("recover");
    let mut late = ProducerSession::new();
    late.start(&full);
    assert_eq!(late.refusal(&full, b"a\n"), Some(PartitionError::OffsetOverflow));
    assert_eq!(late.refusal(&full, b""), None);
    full.fill_segments(&Vec::new()).expect("fill");
    assert_eq!(late.refusal(&full, b"a\n"), Some(PartitionError::SegmentNotFound));
}
