use route_rs::batch::{BatchWriter, WriterEvent};

#[test]
fn full_batch_is_written() {
    let mut w: BatchWriter<u32> = BatchWriter::new(2);
    let s = w.handle(WriterEvent::Results(1));
    assert!(s.flush.is_none() && !s.stop);
    let s = w.handle(WriterEvent::Results(2));
    assert_eq!(s.flush, Some(vec![1, 2]));
    assert!(!s.stop);
    assert_eq!(w.held(), 0);
}

#[test]
fn timeout_writes_partial_batch() {
    let mut w: BatchWriter<u32> = BatchWriter::new(10);
    w.handle(WriterEvent::Results(5));
    let s = w.handle(WriterEvent::Timeout);
    assert_eq!(s.flush, Some(vec![5]));
    assert!(!s.stop);
    let s = w.handle(WriterEvent::Timeout);
    assert!(s.flush.is_none());
}

#[test]
fn shutdown_writes_rest_and_stops() {
    let mut w: BatchWriter<u32> = BatchWriter::new(10);
    w.handle(WriterEvent::Results(5));
    w.handle(WriterEvent::Results(6));
    let s = w.handle(WriterEvent::Shutdown);
    assert_eq!(s.flush, Some(vec![5, 6]));
    assert!(s.stop);
    let mut e: BatchWriter<u32> = BatchWriter::new(10);
    let s = e.handle(WriterEvent::Disconnected);
    assert!(s.flush.is_none() && s.stop);
}

#[test]
fn batch_size_follows_network_size() {
    let mut small: BatchWriter<u8> = BatchWriter::for_network(3);
    small.handle(WriterEvent::Results(1));
    small.handle(WriterEvent::Results(2));
    assert_eq!(small.handle(WriterEvent::Results(3)).flush, Some(vec![1, 2, 3]));
    let mut big: BatchWriter<u32> = BatchWriter::for_network(5000);
    for i in 0..99 {
        assert!(big.handle(WriterEvent::Results(i)).flush.is_none());
    }
    assert_eq!(big.handle(WriterEvent::Results(99)).flush.map(|b| b.len()), Some(100));
}

#[test]
fn everything_received_is_written_in_order() {
    let mut w: BatchWriter<u32> = BatchWriter::new(3);
    let mut written = Vec::new();
    let events = vec![
        WriterEvent::Results(1),
        WriterEvent::Results(2),
        WriterEvent::Timeout,
        WriterEvent::Results(3),
        WriterEvent::Results(4),
        WriterEvent::Results(5),
        WriterEvent::Results(6),
        WriterEvent::Shutdown,
    ];
    for e in events {
        let s = w.handle(e);
        if let Some(b) = s.flush {
            assert!(!b.is_empty());
            written.extend(b);
        }
        if s.stop {
            break;
        }
    }
    assert_eq!(written, vec![1, 2, 3, 4, 5, 6]);
}

#[test]
fn zero_batch_size_writes_each_result_alone() {
    let mut w: BatchWriter<u32> = BatchWriter::for_network(0);
    assert_eq!(w.handle(WriterEvent::Results(7)).flush, Some(vec![7]));
    assert_eq!(w.handle(WriterEvent::Results(8)).flush, Some(vec![8]));
    assert_eq!(w.held(), 0);
}
