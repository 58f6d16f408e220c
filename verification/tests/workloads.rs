use maelstrom::counter::GCounterHandler;
use maelstrom::ids::NodeId;
use maelstrom::kafka::KafkaHandler;
use maelstrom::protocol::{ErrorCode, ErrorResponse};

#[test]
fn counter_add_and_read() {
    // two nodes: n1 accumulates 3 locally; a read on n1 takes the local
    // delta, fetches n2's published delta (4) after a serializing write,
    // and answers the sum 7
    let mut n1 = GCounterHandler::new();
    let published = n1.add(3);
    assert_eq!(published, 3);
    assert_eq!(n1.local_delta(), 3);

    // the serializing write for n2 uses a fresh sequence number each time
    assert_eq!(n1.next_seq(), 0);
    assert_eq!(n1.next_seq(), 1);
    assert_eq!(GCounterHandler::seq_key(NodeId(2)), b"n2_seq".to_vec());
    assert_eq!(GCounterHandler::delta_key(NodeId(2)), b"n2".to_vec());

    let n2_delta = GCounterHandler::interpret_delta_read(Ok(4)).expect("a published delta");
    assert_eq!(n2_delta, 4);
    let total = GCounterHandler::sum_deltas(&vec![n1.local_delta(), n2_delta]);
    assert_eq!(total, Some(7));
}

#[test]
fn counter_missing_key_reads_zero() {
    let missing = ErrorResponse { code: ErrorCode::KeyDoesNotExist, text: b"no key".to_vec() };
    assert_eq!(GCounterHandler::interpret_delta_read(Err(missing)), Ok(0));

    let crash = ErrorResponse { code: ErrorCode::Crash, text: b"down".to_vec() };
    assert_eq!(
        GCounterHandler::interpret_delta_read(Err(crash.clone())),
        Err(crash)
    );
}

#[test]
fn counter_sum_overflow_is_reported() {
    assert_eq!(GCounterHandler::sum_deltas(&vec![i64::MAX, 1]), None);
    assert_eq!(GCounterHandler::sum_deltas(&vec![]), Some(0));
    assert_eq!(GCounterHandler::sum_deltas(&vec![-2, 5, -3]), Some(0));
}

#[test]
fn kafka_send_assigns_offsets() {
    let mut k = KafkaHandler::new();
    assert_eq!(k.send(b"k1".to_vec(), 10), 0);
    assert_eq!(k.send(b"k1".to_vec(), 11), 1);
    assert_eq!(k.send(b"k2".to_vec(), 20), 0);
    assert_eq!(k.send(b"k1".to_vec(), 12), 2);
}

#[test]
fn kafka_poll_from_offsets() {
    let mut k = KafkaHandler::new();
    for m in [10, 11, 12] {
        k.send(b"k1".to_vec(), m);
    }
    k.send(b"k2".to_vec(), 20);

    let r = k.poll(&vec![
        (b"k1".to_vec(), 1),
        (b"k2".to_vec(), 0),
        (b"nope".to_vec(), 0),
        (b"k1".to_vec(), 9),
    ]);
    assert_eq!(r.len(), 3);
    assert_eq!(r[0].0, b"k1".to_vec());
    assert_eq!(r[0].1, vec![(1usize, 11u32), (2, 12)]);
    assert_eq!(r[1].0, b"k2".to_vec());
    assert_eq!(r[1].1, vec![(0usize, 20u32)]);
    assert_eq!(r[2].0, b"k1".to_vec());
    assert_eq!(r[2].1, vec![]);
}

#[test]
fn kafka_committed_offsets_report_lengths() {
    let mut k = KafkaHandler::new();
    for m in [10, 11] {
        k.send(b"k1".to_vec(), m);
    }
    k.send(b"k2".to_vec(), 20);
    k.commit_offsets();
    let r = k.list_committed_offsets(&vec![b"k2".to_vec(), b"gone".to_vec(), b"k1".to_vec()]);
    assert_eq!(r, vec![(b"k2".to_vec(), 1usize), (b"k1".to_vec(), 2usize)]);
}
