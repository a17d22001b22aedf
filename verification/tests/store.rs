use homelab_s3::store::{
    check_lengths, replay_log, Append, Replay, ReplayAction, StoreError, ValueLoc, FLAG_NORMAL,
};
use homelab_s3::ObjectStore;

/// A store on a log in memory.
struct MemStore {
    log: Vec<u8>,
    store: ObjectStore,
}

impl MemStore {
    fn open(log: Vec<u8>) -> MemStore {
        let store = ObjectStore::open(replay_log(&log));
        MemStore { log, store }
    }

    fn write(&mut self, append: Append) {
        self.log.truncate(append.offset() as usize);
        self.log.extend_from_slice(append.record());
        self.store.commit(append);
    }

    fn put(&mut self, bucket: &str, key: &str, value: &[u8]) {
        let append = self.store.put(bucket, key, value).unwrap();
        self.write(append);
    }

    fn delete(&mut self, bucket: &str, key: &str) {
        let append = self.store.delete(bucket, key).unwrap();
        self.write(append);
    }

    fn get(&self, bucket: &str, key: &str) -> Option<Vec<u8>> {
        let loc = self.store.get(bucket, key)?;
        let from = loc.offset as usize;
        Some(self.log[from..from + loc.size as usize].to_vec())
    }
}

#[test]
fn put_then_get() {
    let mut s = MemStore::open(vec![]);
    s.put("b", "k", b"hello");
    assert_eq!(s.get("b", "k").as_deref(), Some(&b"hello"[..]));
    assert_eq!(s.get("b", "missing"), None);
}

#[test]
fn overwrite_returns_latest() {
    let mut s = MemStore::open(vec![]);
    s.put("b", "k", b"old");
    s.put("b", "k", b"newer!!");
    assert_eq!(s.get("b", "k").as_deref(), Some(&b"newer!!"[..]));
}

#[test]
fn get_after_delete_is_none() {
    let mut s = MemStore::open(vec![]);
    s.put("b", "k", b"v");
    s.delete("b", "k");
    assert_eq!(s.get("b", "k"), None);
}

#[test]
fn survives_reopen() {
    let log = {
        let mut s = MemStore::open(vec![]);
        s.put("b", "keep", b"stay");
        s.put("b", "gone", b"x");
        s.put("b", "keep", b"updated");
        s.delete("b", "gone");
        s.log
    };

    let mut s = MemStore::open(log);
    assert_eq!(s.get("b", "keep").as_deref(), Some(&b"updated"[..]));
    assert_eq!(s.get("b", "gone"), None);

    s.put("b", "fresh", b"z");
    assert_eq!(s.get("b", "fresh").as_deref(), Some(&b"z"[..]));
}

#[test]
fn corrupt_tail_is_ignored() {
    let mut log = {
        let mut s = MemStore::open(vec![]);
        s.put("b", "good", b"value");
        s.log
    };
    log.extend_from_slice(&[FLAG_NORMAL, 1, 0, 0, 0, 0xff, 0xff, 0xff, 0xff]);

    let mut s = MemStore::open(log);
    assert_eq!(s.get("b", "good").as_deref(), Some(&b"value"[..]));

    s.put("b", "after", b"z");
    assert_eq!(s.get("b", "after").as_deref(), Some(&b"z"[..]));
}

#[test]
fn record_bytes_are_exact() {
    let mut s = MemStore::open(vec![]);
    s.put("b", "k", b"hi");
    assert_eq!(
        s.log,
        vec![0x00, 3, 0, 0, 0, 2, 0, 0, 0, 0x62, 0x00, 0x6b, 0x68, 0x69]
    );
    assert_eq!(s.store.get("b", "k"), Some(ValueLoc { offset: 12, size: 2 }));
    s.delete("b", "k");
    assert_eq!(s.log[14..], [0x01, 3, 0, 0, 0, 0, 0, 0, 0, 0x62, 0x00, 0x6b]);
}

#[test]
fn long_lengths_are_little_endian() {
    let mut s = MemStore::open(vec![]);
    let value = vec![9u8; 0x1_0203];
    s.put("b", "k", &value);
    assert_eq!(s.log[5..9], [0x03, 0x02, 0x01, 0x00]);
    let s = MemStore::open(s.log);
    assert_eq!(s.get("b", "k"), Some(value));
}

#[test]
fn slashes_do_not_confuse_keys() {
    let mut s = MemStore::open(vec![]);
    s.put("a", "b/c", b"1");
    s.put("a/b", "c", b"2");
    assert_eq!(s.get("a", "b/c").as_deref(), Some(&b"1"[..]));
    assert_eq!(s.get("a/b", "c").as_deref(), Some(&b"2"[..]));
    s.delete("a", "b/c");
    assert_eq!(s.get("a", "b/c"), None);
    assert_eq!(s.get("a/b", "c").as_deref(), Some(&b"2"[..]));
}

#[test]
fn delete_of_a_missing_key_is_recorded() {
    let mut s = MemStore::open(vec![]);
    s.delete("b", "k");
    s.delete("b", "k");
    assert_eq!(s.log.len(), 24);
    assert_eq!(s.get("b", "k"), None);
    assert_eq!(MemStore::open(s.log).get("b", "k"), None);
}

#[test]
fn interrupted_write_is_as_if_it_never_began() {
    let mut s = MemStore::open(vec![]);
    s.put("b", "k", b"old");
    let clean = s.log.len();
    s.put("b", "k", b"new value");
    for cut in clean..s.log.len() {
        let mut again = MemStore::open(s.log[..cut].to_vec());
        assert_eq!(again.get("b", "k").as_deref(), Some(&b"old"[..]));
        again.put("b", "x", b"y");
        assert_eq!(again.get("b", "k").as_deref(), Some(&b"old"[..]));
        assert_eq!(again.get("b", "x").as_deref(), Some(&b"y"[..]));
    }
    let whole = MemStore::open(s.log);
    assert_eq!(whole.get("b", "k").as_deref(), Some(&b"new value"[..]));
}

#[test]
fn key_that_is_not_utf8_ends_the_replay() {
    let mut s = MemStore::open(vec![]);
    s.put("b", "k", b"v");
    let mut log = s.log.clone();
    log.extend_from_slice(&[0, 1, 0, 0, 0, 0, 0, 0, 0, 0xff]);
    let end = s.log.len() as u64;
    s.put("b", "later", b"v");
    log.extend_from_slice(&s.log[end as usize..]);
    let again = MemStore::open(log);
    assert_eq!(again.get("b", "k").as_deref(), Some(&b"v"[..]));
    assert_eq!(again.get("b", "later"), None);
    assert_eq!(again.store.put("b", "n", b"").unwrap().offset(), end);
}

#[test]
fn keys_beyond_ascii_are_restored() {
    let mut s = MemStore::open(vec![]);
    s.put("\u{30d0}\u{30b1}", "\u{1f600}/\u{e9}", b"v");
    let s = MemStore::open(s.log);
    assert_eq!(
        s.get("\u{30d0}\u{30b1}", "\u{1f600}/\u{e9}").as_deref(),
        Some(&b"v"[..])
    );
}

#[test]
fn leftover_bytes_never_come_back() {
    // The tail is a header without its record, and a whole record hides in it.
    let mut hidden = MemStore::open(vec![]);
    hidden.put("b", "ghost", b"boo");
    let mut s = MemStore::open(vec![]);
    s.put("b", "k", b"1");
    let sound = s.log.len();
    let mut log = s.log;
    log.extend_from_slice(&[0, 0, 0, 0, 0, 0xff, 0xff, 0xff, 0xff, 0, 0, 0, 0]);
    log.extend_from_slice(&hidden.log);
    let mut s = MemStore::open(log);
    assert_eq!(s.get("b", "ghost"), None);
    s.put("b", "k", b"2");
    assert_eq!(s.log.len(), sound + 13);
    let again = MemStore::open(s.log);
    assert_eq!(again.get("b", "k").as_deref(), Some(&b"2"[..]));
    assert_eq!(again.get("b", "ghost"), None);
}

#[test]
fn put_replaces_a_log_that_is_all_tail() {
    let mut log = vec![0, 1, 0, 0, 0, 255, 255, 255, 255, 0, 0, 0, 0, 0];
    log.extend_from_slice(&[0, 3, 0, 0, 0, 1, 0, 0, 0, b'b', 0, b'x', b'y']);
    let mut s = MemStore::open(log.clone());
    assert_eq!(s.get("b", "x"), None);
    s.put("b", "k", b"hi");
    let t = MemStore::open(s.log);
    assert_eq!(t.get("b", "k").as_deref(), Some(&b"hi"[..]));
    assert_eq!(t.get("b", "x"), None);

    let mut s = MemStore::open(log);
    s.delete("b", "k");
    assert_eq!(MemStore::open(s.log).get("b", "x"), None);
}

#[test]
fn lengths_are_limited_to_32_bits() {
    let max = u32::MAX as usize;
    assert_eq!(check_lengths(0, 0), Ok(()));
    assert_eq!(check_lengths(max, max), Ok(()));
    assert_eq!(check_lengths(3, max + 1), Err(StoreError::ValueTooLong));
    assert_eq!(check_lengths(max + 1, 0), Err(StoreError::KeyTooLong));
    assert_eq!(check_lengths(max + 1, max + 1), Err(StoreError::KeyTooLong));
}

#[test]
fn replay_asks_for_headers_and_keys_only() {
    let mut s = MemStore::open(vec![]);
    s.put("b", "k", &[1u8; 1000]);
    s.delete("b", "k");
    let mut replay = Replay::begin(s.log.len() as u64);
    assert_eq!(replay.action(), ReplayAction::ReadHeader { offset: 0 });
    replay.feed_header(&s.log[0..9]);
    assert_eq!(replay.action(), ReplayAction::ReadKey { offset: 9, len: 3 });
    replay.feed_key(&s.log[9..12]);
    assert_eq!(replay.action(), ReplayAction::ReadHeader { offset: 1012 });
    replay.feed_header(&s.log[1012..1021]);
    assert_eq!(replay.action(), ReplayAction::ReadKey { offset: 1021, len: 3 });
    replay.feed_key(&s.log[1021..1024]);
    assert_eq!(replay.action(), ReplayAction::Done);
    let store = ObjectStore::open(replay);
    assert_eq!(store.get("b", "k"), None);
    assert_eq!(store.put("b", "k", b"v").unwrap().offset(), 1024);
}

#[test]
fn room_is_counted_to_the_last_offset() {
    let store = ObjectStore::open(Replay::begin(0));
    assert!(store.has_room("b", "k", 1 << 20));
    assert!(!store.has_room("b", "k", usize::MAX));
    assert!(store.has_room("b", "k", usize::MAX - 12));
    assert!(!store.has_room("b", "k", usize::MAX - 11));
}

#[test]
fn every_history_survives_reopening() {
    let mut s = MemStore::open(vec![]);
    let mut expected: Vec<Option<Vec<u8>>> = vec![None; 5];
    for i in 0..60usize {
        let key = i * 7 % 5;
        if i % 3 == 0 {
            s.delete("b", &format!("k{key}"));
            expected[key] = None;
        } else {
            let value = vec![i as u8; i];
            s.put("b", &format!("k{key}"), &value);
            expected[key] = Some(value);
        }
        let again = MemStore::open(s.log.clone());
        for (k, value) in expected.iter().enumerate() {
            assert_eq!(&s.get("b", &format!("k{k}")), value);
            assert_eq!(&again.get("b", &format!("k{k}")), value);
        }
    }
}
