use kvs::KvError;
use kvs::codec::Command;
use kvs::codec::decode;
use kvs::engine::KvStore;

fn b(s: &str) -> Vec<u8> {
    s.as_bytes().to_vec()
}

fn total_bytes(images: &Vec<Vec<u8>>) -> usize {
    images.iter().map(|d| d.len()).sum()
}

/// Every command found anywhere in the images, in replay order.
fn scan_commands(images: &Vec<Vec<u8>>) -> Vec<Command> {
    let mut out = Vec::new();
    for img in images {
        let mut pos = 0usize;
        while pos < img.len() {
            match decode(img, pos) {
                Ok((c, n)) => {
                    out.push(c);
                    pos += n;
                }
                Err(_) => break,
            }
        }
    }
    out
}

#[test]
fn set_then_get() {
    let mut s = KvStore::new();
    s.set(b("key1"), b("value1"));
    assert_eq!(s.get(&b("key1")), Some(b("value1")));
}

#[test]
fn get_absent_is_none() {
    let s = KvStore::new();
    assert_eq!(s.get(&b("missing")), None);
}

#[test]
fn default_store_is_empty() {
    let mut s = KvStore::default();
    assert_eq!(s.get(&b("anything-at-all")), None);
    s.set(b("k"), b("v"));
    assert_eq!(s.get(&b("k")), Some(b("v")));
}

#[test]
fn overwrite_latest_wins() {
    let mut s = KvStore::new();
    s.set(b("k"), b("old"));
    s.set(b("k"), b("new"));
    assert_eq!(s.get(&b("k")), Some(b("new")));
}

#[test]
fn remove_then_get_none() {
    let mut s = KvStore::new();
    s.set(b("k"), b("v"));
    assert_eq!(s.remove(&b("k")), Ok(()));
    assert_eq!(s.get(&b("k")), None);
}

#[test]
fn remove_absent_fails_and_changes_nothing() {
    let mut s = KvStore::new();
    s.set(b("other"), b("v"));
    let before = s.snapshot();
    assert_eq!(s.remove(&b("missing")), Err(KvError::KeyNotFound));
    let after = s.snapshot();
    assert_eq!(before, after);
    assert_eq!(s.get(&b("other")), Some(b("v")));
}

#[test]
fn close_twice_same_effect_as_once() {
    let mut s = KvStore::new();
    s.set(b("a"), b("1"));
    s.close();
    let once = s.snapshot();
    s.close();
    let twice = s.snapshot();
    assert_eq!(once, twice);
}

#[test]
fn restart_scenario() {
    let mut s = KvStore::new();
    s.set(b("a"), b("1"));
    s.set(b("b"), b("2"));
    s.set(b("a"), b("3"));
    s.close();
    let images = s.snapshot();
    let r = KvStore::open(images);
    assert_eq!(r.get(&b("a")), Some(b("3")));
    assert_eq!(r.get(&b("b")), Some(b("2")));
}

#[test]
fn remove_record_stays_in_log_until_compaction() {
    let mut s = KvStore::new();
    s.set(b("a"), b("1"));
    assert_eq!(s.remove(&b("a")), Ok(()));
    assert_eq!(s.get(&b("a")), None);
    let removes: Vec<Command> = scan_commands(&s.snapshot())
        .into_iter()
        .filter(|c| matches!(c, Command::Remove { .. }))
        .collect();
    assert_eq!(removes, vec![Command::Remove { key: b("a") }]);
    s.compact();
    assert!(scan_commands(&s.snapshot())
        .iter()
        .all(|c| !matches!(c, Command::Remove { .. })));
    assert_eq!(s.get(&b("a")), None);
}

#[test]
fn rotation_keeps_old_keys_readable() {
    let mut s = KvStore::new();
    for i in 0..200 {
        s.set(b(&format!("key-{:04}", i)), b(&format!("val-{:04}", i)));
    }
    // Each record is ~35 bytes and segments rotate past 1024 bytes, so 200
    // distinct keys force several rotations.
    assert!(s.snapshot().len() >= 3);
    assert_eq!(s.get(&b("key-0000")), Some(b("val-0000")));
    assert_eq!(s.get(&b("key-0123")), Some(b("val-0123")));
    assert_eq!(s.get(&b("key-0199")), Some(b("val-0199")));
}

#[test]
fn compaction_preserves_contents_and_shrinks_log() {
    let mut s = KvStore::new();
    for i in 0..50 {
        for round in 0..4 {
            s.set(b(&format!("k{:02}", i)), b(&format!("r{}-{:02}", round, i)));
        }
    }
    let before = total_bytes(&s.snapshot());
    let gets_before: Vec<Option<Vec<u8>>> =
        (0..50).map(|i| s.get(&b(&format!("k{:02}", i)))).collect();
    s.compact();
    let after = total_bytes(&s.snapshot());
    assert!(after <= before);
    for i in 0..50 {
        assert_eq!(s.get(&b(&format!("k{:02}", i))), gets_before[i]);
        assert_eq!(
            s.get(&b(&format!("k{:02}", i))),
            Some(b(&format!("r3-{:02}", i)))
        );
    }
}

#[test]
fn automatic_compaction_bounds_overwrites() {
    let mut s = KvStore::new();
    let value = b("x").repeat(64);
    for _ in 0..500 {
        s.set(b("hot"), value.clone());
    }
    // 500 records of ~90 bytes were written; compaction must have reclaimed
    // almost all of them.
    assert!(total_bytes(&s.snapshot()) < 10 * 1024);
    assert_eq!(s.get(&b("hot")), Some(value));
}

#[test]
fn recovery_matches_pre_restart_state() {
    let mut s = KvStore::new();
    for i in 0..60 {
        s.set(b(&format!("k{:02}", i)), b(&format!("v{:02}", i)));
    }
    for i in (0..60).step_by(3) {
        assert_eq!(s.remove(&b(&format!("k{:02}", i))), Ok(()));
    }
    for i in (0..60).step_by(5) {
        s.set(b(&format!("k{:02}", i)), b("again"));
    }
    let expected: Vec<Option<Vec<u8>>> =
        (0..60).map(|i| s.get(&b(&format!("k{:02}", i)))).collect();
    s.close();
    let r = KvStore::open(s.snapshot());
    for i in 0..60 {
        assert_eq!(r.get(&b(&format!("k{:02}", i))), expected[i]);
    }
}

#[test]
fn open_empty_is_empty() {
    let r = KvStore::open(Vec::new());
    assert_eq!(r.get(&b("anything")), None);
}

#[test]
fn open_discards_torn_tail() {
    let mut s = KvStore::new();
    s.set(b("a"), b("1"));
    s.set(b("b"), b("2"));
    s.close();
    let mut images = s.snapshot();
    // A crash mid-append leaves a partial record at the end of the active
    // segment; recovery truncates it and keeps everything before it.
    let last = images.len() - 1;
    images[last].extend([0u8, 9, 9]);
    let r = KvStore::open(images);
    assert_eq!(r.get(&b("a")), Some(b("1")));
    assert_eq!(r.get(&b("b")), Some(b("2")));
}

#[test]
fn rotation_survives_restart() {
    let mut s = KvStore::new();
    for i in 0..200 {
        s.set(b(&format!("key-{:04}", i)), b(&format!("val-{:04}", i)));
    }
    s.close();
    let r = KvStore::open(s.snapshot());
    assert_eq!(r.get(&b("key-0000")), Some(b("val-0000")));
    assert_eq!(r.get(&b("key-0199")), Some(b("val-0199")));
}
