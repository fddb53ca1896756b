use kvs::KvError;
use kvs::log::LogPointer;
use kvs::log::SegmentManager;

#[test]
fn rotation_and_retirement() {
    let mut sm = SegmentManager::new();
    assert_eq!(sm.list_segments(), vec![0]);
    sm.rotate();
    assert_eq!(sm.list_segments(), vec![0, 1]);
    sm.retire(0);
    assert_eq!(sm.list_segments(), vec![1]);
    // Retiring the active segment, or an id the log does not hold, is a no-op.
    sm.retire(1);
    sm.retire(42);
    assert_eq!(sm.list_segments(), vec![1]);
}

#[test]
fn append_then_read_returns_record_bytes() {
    let mut sm = SegmentManager::new();
    let rec = kvs::codec::encode(&kvs::codec::Command::Put {
        key: b"k".to_vec(),
        value: b"v".to_vec(),
    });
    let ptr = sm.append(&rec);
    assert_eq!(ptr.segment_id, 0);
    assert_eq!(ptr.offset, 0);
    assert_eq!(ptr.len, rec.len());
    assert_eq!(sm.read(ptr), Ok(rec.clone()));
    let ptr2 = sm.append(&rec);
    assert_eq!(ptr2.offset, rec.len());
    assert_eq!(sm.read(ptr2), Ok(rec));
}

#[test]
fn read_missing_segment_or_bad_range() {
    let sm = SegmentManager::new();
    let missing = LogPointer { segment_id: 9, offset: 0, len: 1 };
    assert_eq!(sm.read(missing), Err(KvError::IoFailure));
    let out_of_range = LogPointer { segment_id: 0, offset: 0, len: 1 };
    assert_eq!(sm.read(out_of_range), Err(KvError::CorruptRecord));
}
