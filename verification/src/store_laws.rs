//! What holds of the log and the index over any run of the store.

use vstd::prelude::*;
use vstd::utf8::*;

use crate::store;
use crate::store::{AppendView, Location, Record, Recovered, ReplayView, Stage, StoreView};

verus! {

/// The log after it was cut at `offset` and `bytes` were written there.
pub open spec fn written(log: Seq<u8>, offset: nat, bytes: Seq<u8>) -> Seq<u8> {
    log.take(offset as int) + bytes
}

/// The store is the state of a log: its index is what replaying the log up to
/// the write offset gives, and the records end exactly there. Bytes beyond the
/// write offset are no concern of the store.
pub open spec fn describes(s: StoreView, log: Seq<u8>) -> bool {
    &&& s.write_offset <= log.len()
    &&& store::replay(log.take(s.write_offset as int)) == Recovered {
        index: s.index,
        end: s.write_offset,
    }
}

/// The value of an object as read from the log at the place that the index
/// gives.
pub open spec fn read(
    s: StoreView,
    log: Seq<u8>,
    bucket: Seq<char>,
    key: Seq<char>,
) -> Option<Seq<u8>> {
    match s.location(bucket, key) {
        Some(loc) => Some(log.subrange(loc.offset as int, (loc.offset + loc.size) as int)),
        None => None,
    }
}

// ---------------------------------------------------------------------------
// Records
// ---------------------------------------------------------------------------

/// Four bytes give back a 32-bit number.
proof fn lemma_le_round_trip(n: nat)
    requires
        n < 0x1_0000_0000,
    ensures
        store::le_value(store::le_bytes(n)) == n,
{
}

/// A record in the log is read as what was written.
pub proof fn lemma_record_at(
    before: Seq<u8>,
    flags: u8,
    key: Seq<char>,
    value: Seq<u8>,
    after: Seq<u8>,
)
    requires
        store::encodable(key, value),
    ensures
        store::record_at(
            before + store::record_bytes(flags, key, value) + after,
            before.len(),
        ) == Some(
            Record {
                tombstone: flags == store::FLAG_TOMBSTONE,
                key,
                value: Location {
                    offset: (before.len() + 9 + encode_utf8(key).len()) as nat,
                    size: value.len(),
                },
            },
        ),
{
    let key_bytes = encode_utf8(key);
    let record = store::record_bytes(flags, key, value);
    let log = before + record + after;
    let header = store::header_at(log, before.len());
    assert(header.subrange(1, 5) == store::le_bytes(key_bytes.len()));
    assert(header.subrange(5, 9) == store::le_bytes(value.len()));
    lemma_le_round_trip(key_bytes.len());
    lemma_le_round_trip(value.len());
    let start = (before.len() + 9) as int;
    assert(log.subrange(start, start + key_bytes.len()) == key_bytes);
    encode_utf8_valid_utf8(key);
    encode_utf8_decode_utf8(key);
}

/// A record is the same in a log and in a prefix of the log that holds it.
proof fn lemma_record_in_prefix(log: Seq<u8>, n: nat, offset: nat)
    requires
        n <= log.len(),
    ensures
        store::record_at(log.take(n as int), offset) matches Some(r) ==> store::record_at(
            log,
            offset,
        ) == Some(r),
        store::record_at(log, offset) matches Some(r) ==> (r.end() <= n ==> store::record_at(
            log.take(n as int),
            offset,
        ) == Some(r)),
{
    let prefix = log.take(n as int);
    if offset + 9 <= n {
        let header = store::header_at(log, offset);
        assert(store::header_at(prefix, offset) == header);
        let start = (offset + 9) as int;
        let end = start + store::header_key_len(header);
        if end <= n {
            assert(prefix.subrange(start, end) == log.subrange(start, end));
        }
    }
}

/// A record ends after it starts, and within the log.
proof fn lemma_record_bounds(log: Seq<u8>, offset: nat)
    ensures
        store::record_at(log, offset) matches Some(r) ==> offset < r.value.offset && r.end()
            <= log.len(),
{
}

// ---------------------------------------------------------------------------
// Replay
// ---------------------------------------------------------------------------

/// Every location of the index lies before `end`.
pub open spec fn within(index: Map<Seq<char>, Location>, end: nat) -> bool {
    forall|k: Seq<char>| #[trigger]
        index.contains_key(k) ==> index[k].offset + index[k].size <= end
}

proof fn lemma_replay_bounds(log: Seq<u8>, offset: nat, index: Map<Seq<char>, Location>)
    requires
        offset <= log.len(),
        within(index, offset),
    ensures
        offset <= store::replay_from(log, offset, index).end <= log.len(),
        within(
            store::replay_from(log, offset, index).index,
            store::replay_from(log, offset, index).end,
        ),
        store::record_at(log, store::replay_from(log, offset, index).end) is None,
    decreases log.len() - offset,
{
    lemma_record_bounds(log, offset);
    match store::record_at(log, offset) {
        None => {},
        Some(r) => {
            lemma_replay_bounds(log, r.end(), store::index_with(index, r));
        },
    }
}

/// Replaying a log goes through the state that replaying a prefix ends in.
proof fn lemma_replay_through(
    log: Seq<u8>,
    n: nat,
    offset: nat,
    index: Map<Seq<char>, Location>,
)
    requires
        n <= log.len(),
    ensures
        ({
            let part = store::replay_from(log.take(n as int), offset, index);
            store::replay_from(log, offset, index) == store::replay_from(
                log,
                part.end,
                part.index,
            )
        }),
    decreases n - offset,
{
    lemma_record_in_prefix(log, n, offset);
    lemma_record_bounds(log.take(n as int), offset);
    match store::record_at(log.take(n as int), offset) {
        None => {},
        Some(r) => {
            lemma_replay_through(log, n, r.end(), store::index_with(index, r));
        },
    }
}

/// What lies beyond the sound records has no part in the replay.
proof fn lemma_replay_prefix(
    log: Seq<u8>,
    offset: nat,
    index: Map<Seq<char>, Location>,
    end: nat,
)
    requires
        offset <= log.len(),
        within(index, offset),
        end == store::replay_from(log, offset, index).end,
    ensures
        store::replay_from(log.take(end as int), offset, index) == store::replay_from(
            log,
            offset,
            index,
        ),
    decreases log.len() - offset,
{
    lemma_replay_bounds(log, offset, index);
    lemma_record_bounds(log, offset);
    match store::record_at(log, offset) {
        None => {
            assert(end == offset);
            assert(store::record_at(log.take(end as int), offset) is None);
        },
        Some(r) => {
            let next = store::index_with(index, r);
            lemma_replay_bounds(log, r.end(), next);
            lemma_record_in_prefix(log, end, offset);
            lemma_replay_prefix(log, r.end(), next, end);
        },
    }
}

// ---------------------------------------------------------------------------
// Laws
// ---------------------------------------------------------------------------

/// A replay that was given the bytes of a log piece by piece recovers, once it is
/// finished, what replaying the log as a whole does.
pub proof fn law_replay_by_pieces(r: ReplayView, log: Seq<u8>)
    requires
        r.follows(log),
        r.stage == Stage::Finished,
    ensures
        store::replay(log) == (Recovered { index: r.index, end: r.offset }),
{
}

/// Opening a store on a log gives its state, whatever the log holds: a torn or
/// corrupt tail is left out, and nothing in the index points into it.
pub proof fn law_open(log: Seq<u8>)
    ensures
        describes(
            StoreView {
                write_offset: store::replay(log).end,
                index: store::replay(log).index,
            },
            log,
        ),
        store::record_at(log, store::replay(log).end) is None,
{
    lemma_replay_bounds(log, 0, Map::empty());
    lemma_replay_prefix(log, 0, Map::empty(), store::replay(log).end);
}

/// The index of a store points into the log, before the write offset.
pub proof fn law_index_in_bounds(s: StoreView, log: Seq<u8>)
    requires
        describes(s, log),
    ensures
        within(s.index, s.write_offset),
{
    lemma_replay_bounds(log.take(s.write_offset as int), 0, Map::empty());
}

/// Writing a record and committing it keeps the store the state of its log.
proof fn lemma_append(s: StoreView, log: Seq<u8>, flags: u8, append: AppendView, value: Seq<u8>)
    requires
        describes(s, log),
        store::encodable(append.key, value),
        append.offset == s.write_offset,
        append.record == store::record_bytes(flags, append.key, value),
        flags == store::FLAG_TOMBSTONE <==> append.value is None,
        append.value matches Some(loc) ==> loc == (Location {
            offset: (s.write_offset + 9 + encode_utf8(append.key).len()) as nat,
            size: value.len(),
        }),
    ensures
        describes(s.committed(append), written(log, append.offset, append.record)),
{
    let w = s.write_offset;
    let record = append.record;
    let new_log = written(log, w, record);
    let end = w + record.len();
    let sound = new_log.take(end as int);
    let before = log.take(w as int);
    assert(sound == before + record + Seq::<u8>::empty());
    assert(sound.take(w as int) == before);
    lemma_replay_through(sound, w, 0, Map::empty());
    lemma_record_at(before, flags, append.key, value, Seq::empty());
    let r = store::record_at(sound, w).unwrap();
    assert(r.end() == end);
    assert(store::record_at(sound, end) is None);
    let next = store::index_with(s.index, r);
    assert(store::replay_from(sound, end, next) == Recovered { index: next, end });
    assert(store::replay(sound) == Recovered { index: next, end });
}

/// After a put is written and committed, the object reads as the value put, and
/// every other object reads as it did.
pub proof fn law_read_after_put(
    s: StoreView,
    log: Seq<u8>,
    bucket: Seq<char>,
    key: Seq<char>,
    value: Seq<u8>,
)
    requires
        s.write_offset <= log.len(),
        within(s.index, s.write_offset),
        store::encodable(store::composite_key(bucket, key), value),
    ensures
        ({
            let append = s.putting(bucket, key, value);
            let after = s.committed(append);
            let new_log = written(log, append.offset, append.record);
            &&& read(after, new_log, bucket, key) == Some(value)
            &&& forall|b: Seq<char>, k: Seq<char>|
                store::composite_key(b, k) != store::composite_key(bucket, key)
                    ==> #[trigger] read(after, new_log, b, k) == read(s, log, b, k)
        }),
{
    let append = s.putting(bucket, key, value);
    let after = s.committed(append);
    let new_log = written(log, append.offset, append.record);
    let composite = store::composite_key(bucket, key);
    let at = (s.write_offset + 9 + encode_utf8(composite).len()) as int;
    assert(new_log.subrange(at, at + value.len()) == value);
    assert forall|b: Seq<char>, k: Seq<char>|
        store::composite_key(b, k) != composite implies #[trigger] read(after, new_log, b, k)
        == read(s, log, b, k) by {
        lemma_read_unchanged(s, log, append, b, k);
    }
}

/// After a delete is written and committed, the object is gone, and every other
/// object reads as it did, whether or not the object was there.
pub proof fn law_read_after_delete(
    s: StoreView,
    log: Seq<u8>,
    bucket: Seq<char>,
    key: Seq<char>,
)
    requires
        s.write_offset <= log.len(),
        within(s.index, s.write_offset),
    ensures
        ({
            let append = s.deleting(bucket, key);
            let after = s.committed(append);
            let new_log = written(log, append.offset, append.record);
            &&& read(after, new_log, bucket, key) is None
            &&& forall|b: Seq<char>, k: Seq<char>|
                store::composite_key(b, k) != store::composite_key(bucket, key)
                    ==> #[trigger] read(after, new_log, b, k) == read(s, log, b, k)
        }),
{
    let append = s.deleting(bucket, key);
    let after = s.committed(append);
    let new_log = written(log, append.offset, append.record);
    assert forall|b: Seq<char>, k: Seq<char>|
        store::composite_key(b, k) != store::composite_key(
            bucket,
            key,
        ) implies #[trigger] read(after, new_log, b, k) == read(s, log, b, k) by {
        lemma_read_unchanged(s, log, append, b, k);
    }
}

/// A put that is written and committed leaves the store the state of its log.
pub proof fn law_put_keeps_state(
    s: StoreView,
    log: Seq<u8>,
    bucket: Seq<char>,
    key: Seq<char>,
    value: Seq<u8>,
)
    requires
        describes(s, log),
        store::encodable(store::composite_key(bucket, key), value),
    ensures
        ({
            let append = s.putting(bucket, key, value);
            describes(s.committed(append), written(log, append.offset, append.record))
        }),
{
    lemma_append(s, log, store::FLAG_NORMAL, s.putting(bucket, key, value), value);
}

/// A delete that is written and committed leaves the store the state of its
/// log.
pub proof fn law_delete_keeps_state(
    s: StoreView,
    log: Seq<u8>,
    bucket: Seq<char>,
    key: Seq<char>,
)
    requires
        describes(s, log),
        store::encodable(store::composite_key(bucket, key), Seq::empty()),
    ensures
        ({
            let append = s.deleting(bucket, key);
            describes(s.committed(append), written(log, append.offset, append.record))
        }),
{
    lemma_append(s, log, store::FLAG_TOMBSTONE, s.deleting(bucket, key), Seq::empty());
}

/// An object with another key than that of the record reads as before.
proof fn lemma_read_unchanged(
    s: StoreView,
    log: Seq<u8>,
    append: AppendView,
    bucket: Seq<char>,
    key: Seq<char>,
)
    requires
        s.write_offset <= log.len(),
        within(s.index, s.write_offset),
        append.offset == s.write_offset,
        store::composite_key(bucket, key) != append.key,
    ensures
        read(s.committed(append), written(log, append.offset, append.record), bucket, key) == read(
            s,
            log,
            bucket,
            key,
        ),
{
    let composite = store::composite_key(bucket, key);
    let new_log = written(log, append.offset, append.record);
    if s.index.contains_key(composite) {
        let loc = s.index[composite];
        let from = loc.offset as int;
        let to = (loc.offset + loc.size) as int;
        assert(new_log.subrange(from, to) == log.subrange(from, to));
    }
}

/// Closing the store and opening it again on its log gives the same state, so
/// long as no leftover bytes beyond the write offset happen to form a record.
pub proof fn law_reopen(s: StoreView, log: Seq<u8>)
    requires
        describes(s, log),
        store::record_at(log, s.write_offset) is None,
    ensures
        store::replay(log) == (Recovered { index: s.index, end: s.write_offset }),
{
    lemma_replay_through(log, s.write_offset, 0, Map::empty());
}

/// A written record is the end of the log, whatever lay beyond the offset, and
/// nothing after it can be taken for a record.
pub proof fn law_tail_is_overwritten(log: Seq<u8>, offset: nat, record: Seq<u8>)
    requires
        offset <= log.len(),
    ensures
        written(log, offset, record).len() == offset + record.len(),
        store::record_at(written(log, offset, record), offset + record.len()) is None,
{
}

/// A write that was cut short is as if it had never begun: replaying the log
/// with any proper part of one more record at the write offset gives the state
/// before.
pub proof fn law_interrupted_write(
    s: StoreView,
    log: Seq<u8>,
    flags: u8,
    key: Seq<char>,
    value: Seq<u8>,
    n: nat,
)
    requires
        describes(s, log),
        store::encodable(key, value),
        n < store::record_bytes(flags, key, value).len(),
    ensures
        store::replay(
            written(
                log,
                s.write_offset,
                store::record_bytes(flags, key, value).take(n as int),
            ),
        ) == (Recovered { index: s.index, end: s.write_offset }),
{
    let record = store::record_bytes(flags, key, value);
    let w = s.write_offset;
    let before = log.take(w as int);
    let torn = written(log, w, record.take(n as int));
    let whole = before + record + Seq::<u8>::empty();
    assert(torn.take(w as int) == before);
    lemma_replay_through(torn, w, 0, Map::empty());
    lemma_record_at(before, flags, key, value, Seq::empty());
    assert(whole.take((w + n) as int) == torn);
    lemma_record_in_prefix(whole, w + n, w);
    lemma_record_bounds(torn, w);
    assert(store::record_at(torn, w) is None);
}

// ---------------------------------------------------------------------------
// Histories
// ---------------------------------------------------------------------------

/// A change to the store.
pub enum Change {
    Put { bucket: Seq<char>, key: Seq<char>, value: Seq<u8> },
    Delete { bucket: Seq<char>, key: Seq<char> },
}

impl Change {
    /// The key in the log of the object that is changed.
    pub open spec fn composite(self) -> Seq<char> {
        match self {
            Change::Put { bucket, key, value } => store::composite_key(bucket, key),
            Change::Delete { bucket, key } => store::composite_key(bucket, key),
        }
    }

    /// The value that the object has after the change.
    pub open spec fn value(self) -> Option<Seq<u8>> {
        match self {
            Change::Put { bucket, key, value } => Some(value),
            Change::Delete { bucket, key } => None,
        }
    }

    /// The record has room for the lengths.
    pub open spec fn fits(self) -> bool {
        match self.value() {
            Some(value) => store::encodable(self.composite(), value),
            None => store::encodable(self.composite(), Seq::empty()),
        }
    }

    /// The record of the change.
    pub open spec fn append(self, s: StoreView) -> AppendView {
        match self {
            Change::Put { bucket, key, value } => s.putting(bucket, key, value),
            Change::Delete { bucket, key } => s.deleting(bucket, key),
        }
    }
}

/// A store and its log.
pub struct StoreState {
    pub store: StoreView,
    pub log: Seq<u8>,
}

impl StoreState {
    /// The state after a change is written and committed.
    pub open spec fn changed(self, change: Change) -> StoreState {
        let append = change.append(self.store);
        StoreState {
            store: self.store.committed(append),
            log: written(self.log, append.offset, append.record),
        }
    }

    /// The state after a series of changes.
    pub open spec fn after(self, changes: Seq<Change>) -> StoreState
        decreases changes.len(),
    {
        if changes.len() == 0 {
            self
        } else {
            self.after(changes.drop_last()).changed(changes.last())
        }
    }
}

/// The value that the last change of an object gave it, or the one that it had
/// `before` where no change is about it.
pub open spec fn latest_value(
    changes: Seq<Change>,
    composite: Seq<char>,
    before: Option<Seq<u8>>,
) -> Option<Seq<u8>>
    decreases changes.len(),
{
    if changes.len() == 0 {
        before
    } else if changes.last().composite() == composite {
        changes.last().value()
    } else {
        latest_value(changes.drop_last(), composite, before)
    }
}

/// After any series of puts and deletes the store is the state of its log, and
/// every object reads as its last change left it.
pub proof fn law_history(
    start: StoreState,
    changes: Seq<Change>,
    bucket: Seq<char>,
    key: Seq<char>,
)
    requires
        describes(start.store, start.log),
        forall|i: int| 0 <= i < changes.len() ==> (#[trigger] changes[i]).fits(),
    ensures
        ({
            let end = start.after(changes);
            &&& describes(end.store, end.log)
            &&& read(end.store, end.log, bucket, key) == latest_value(
                changes,
                store::composite_key(bucket, key),
                read(start.store, start.log, bucket, key),
            )
        }),
    decreases changes.len(),
{
    if changes.len() > 0 {
        let init = changes.drop_last();
        let change = changes.last();
        assert(change == changes[changes.len() - 1]);
        assert forall|i: int| 0 <= i < init.len() implies (#[trigger] init[i]).fits() by {
            assert(init[i] == changes[i]);
        }
        law_history(start, init, bucket, key);
        let mid = start.after(init);
        law_index_in_bounds(mid.store, mid.log);
        match change {
            Change::Put { bucket: b, key: k, value } => {
                law_put_keeps_state(mid.store, mid.log, b, k, value);
                law_read_after_put(mid.store, mid.log, b, k, value);
                let end = mid.changed(change);
                assert(read(end.store, end.log, b, k) == Some(value));
            },
            Change::Delete { bucket: b, key: k } => {
                law_delete_keeps_state(mid.store, mid.log, b, k);
                law_read_after_delete(mid.store, mid.log, b, k);
                let end = mid.changed(change);
                assert(read(end.store, end.log, b, k) is None);
            },
        }
    }
}

/// A restart loses nothing and brings nothing back: opening the log after any
/// series of puts and deletes gives the state that the store had, so every
/// object reads as its last change left it. Where there is a change, this holds
/// whatever lay beyond the write offset at the start; where there is none, it
/// takes a log that holds no record there, such as one that was just opened.
pub proof fn law_history_survives_reopen(
    start: StoreState,
    changes: Seq<Change>,
    bucket: Seq<char>,
    key: Seq<char>,
)
    requires
        describes(start.store, start.log),
        changes.len() > 0 || store::record_at(start.log, start.store.write_offset) is None,
        forall|i: int| 0 <= i < changes.len() ==> (#[trigger] changes[i]).fits(),
    ensures
        ({
            let end = start.after(changes);
            let recovered = store::replay(end.log);
            let reopened = StoreView { write_offset: recovered.end, index: recovered.index };
            &&& reopened == end.store
            &&& read(reopened, end.log, bucket, key) == latest_value(
                changes,
                store::composite_key(bucket, key),
                read(start.store, start.log, bucket, key),
            )
        }),
{
    law_history(start, changes, bucket, key);
    let end = start.after(changes);
    if changes.len() > 0 {
        let init = changes.drop_last();
        assert forall|i: int| 0 <= i < init.len() implies (#[trigger] init[i]).fits() by {
            assert(init[i] == changes[i]);
        }
        law_history(start, init, bucket, key);
        let mid = start.after(init);
        let append = changes.last().append(mid.store);
        law_tail_is_overwritten(mid.log, append.offset, append.record);
    }
    law_reopen(end.store, end.log);
}

// ---------------------------------------------------------------------------
// The index
// ---------------------------------------------------------------------------

/// The records of a log from `offset` on, in order.
pub open spec fn records_from(log: Seq<u8>, offset: nat) -> Seq<Record>
    decreases log.len() - offset,
{
    match store::record_at(log, offset) {
        None => Seq::empty(),
        Some(r) => seq![r] + records_from(log, r.end()),
    }
}

/// `i` is the place of the last record of `key`.
pub open spec fn is_latest(records: Seq<Record>, i: int, key: Seq<char>) -> bool {
    &&& 0 <= i < records.len()
    &&& records[i].key == key
    &&& forall|j: int| i < j < records.len() ==> (#[trigger] records[j]).key != key
}

/// The index holds exactly the latest values: a key whose last record is a
/// tombstone, or that has no record, is not in it; any other key is mapped to
/// the value of its last record.
pub proof fn law_index_is_latest(log: Seq<u8>, key: Seq<char>)
    ensures
        ({
            let index = store::replay(log).index;
            let records = records_from(log, 0);
            &&& index.contains_key(key) <==> exists|i: int|
                #[trigger] is_latest(records, i, key) && !records[i].tombstone
            &&& forall|i: int| #[trigger]
                is_latest(records, i, key) && !records[i].tombstone ==> index[key]
                    == records[i].value
        }),
{
    lemma_latest(log, 0, Map::empty(), key);
}

proof fn lemma_latest(
    log: Seq<u8>,
    offset: nat,
    index: Map<Seq<char>, Location>,
    key: Seq<char>,
)
    ensures
        ({
            let after = store::replay_from(log, offset, index).index;
            let records = records_from(log, offset);
            &&& forall|i: int| #[trigger]
                is_latest(records, i, key) ==> (after.contains_key(key) <==> !records[i].tombstone)
                    && (after.contains_key(key) ==> after[key] == records[i].value)
            &&& (forall|i: int| !#[trigger] is_latest(records, i, key)) ==> {
                &&& after.contains_key(key) == index.contains_key(key)
                &&& index.contains_key(key) ==> after[key] == index[key]
            }
        }),
    decreases log.len() - offset,
{
    let after = store::replay_from(log, offset, index).index;
    let records = records_from(log, offset);
    match store::record_at(log, offset) {
        None => {},
        Some(r) => {
            lemma_record_bounds(log, offset);
            let next = store::index_with(index, r);
            let rest = records_from(log, r.end());
            lemma_latest(log, r.end(), next, key);
            assert forall|i: int| #[trigger] is_latest(records, i, key) implies (
            after.contains_key(key) <==> !records[i].tombstone) && (after.contains_key(key)
                ==> after[key] == records[i].value) by {
                if i > 0 {
                    assert forall|j: int| i - 1 < j < rest.len() implies (
                    #[trigger] rest[j]).key != key by {
                        assert(records[j + 1] == rest[j]);
                    }
                    assert(is_latest(rest, i - 1, key));
                } else {
                    assert forall|j: int| !#[trigger] is_latest(rest, j, key) by {
                        if is_latest(rest, j, key) {
                            assert(records[j + 1] == rest[j]);
                        }
                    }
                }
            }
            if forall|i: int| !#[trigger] is_latest(records, i, key) {
                assert forall|j: int| !#[trigger] is_latest(rest, j, key) by {
                    if is_latest(rest, j, key) {
                        assert forall|m: int| j + 1 < m < records.len() implies (
                        #[trigger] records[m]).key != key by {
                            assert(records[m] == rest[m - 1]);
                        }
                        assert(is_latest(records, j + 1, key));
                    }
                }
                if r.key == key {
                    assert forall|m: int| 0 < m < records.len() implies (
                    #[trigger] records[m]).key != key by {
                        if records[m].key == key {
                            lemma_some_latest(rest, m - 1, key);
                        }
                    }
                    assert(is_latest(records, 0, key));
                }
            }
        },
    }
}

/// Where a key has a record it has a last one.
proof fn lemma_some_latest(records: Seq<Record>, i: int, key: Seq<char>)
    requires
        0 <= i < records.len(),
        records[i].key == key,
    ensures
        exists|j: int| #[trigger] is_latest(records, j, key),
    decreases records.len() - i,
{
    if forall|j: int| i < j < records.len() ==> (#[trigger] records[j]).key != key {
        assert(is_latest(records, i, key));
    } else {
        let j = choose|j: int| i < j < records.len() && (#[trigger] records[j]).key == key;
        lemma_some_latest(records, j, key);
    }
}

/// Objects in different places have different keys in the log, whatever slashes
/// bucket and key hold, so long as the buckets hold no NUL.
pub proof fn law_composite_key_is_unique(
    bucket1: Seq<char>,
    key1: Seq<char>,
    bucket2: Seq<char>,
    key2: Seq<char>,
)
    requires
        !bucket1.contains('\0'),
        !bucket2.contains('\0'),
        store::composite_key(bucket1, key1) == store::composite_key(bucket2, key2),
    ensures
        bucket1 == bucket2,
        key1 == key2,
{
    let c1 = store::composite_key(bucket1, key1);
    let c2 = store::composite_key(bucket2, key2);
    let n1 = bucket1.len() as int;
    let n2 = bucket2.len() as int;
    if n1 < n2 {
        assert(c1[n1] == '\0');
        assert(c2[n1] == bucket2[n1]);
        assert(bucket2.contains(bucket2[n1]));
    } else if n2 < n1 {
        assert(c2[n2] == '\0');
        assert(c1[n2] == bucket1[n2]);
        assert(bucket1.contains(bucket1[n2]));
    }
    assert(c1.take(n1) == bucket1);
    assert(c2.take(n2) == bucket2);
    assert(c1.skip(n1 + 1) == key1);
    assert(c2.skip(n2 + 1) == key2);
}

// ---------------------------------------------------------------------------
// Bytes
// ---------------------------------------------------------------------------

/// The number in four bytes, least significant first.
pub open spec fn number(bytes: Seq<u8>, at: int) -> nat {
    (bytes[at] as int + 256 * bytes[at + 1] as int + 65536 * bytes[at + 2] as int + 16777216
        * bytes[at + 3] as int) as nat
}

/// A header has nine bytes, and the first of them tells values from removals.
pub proof fn law_format()
    ensures
        store::HEADER_LEN == 9,
        store::FLAG_NORMAL == 0,
        store::FLAG_TOMBSTONE == 1,
{
}

/// A record is refused exactly when a length needs more than 32 bits, and the
/// key is looked at first.
pub proof fn law_lengths(key_len: nat, value_len: nat)
    ensures
        store::length_fault(key_len, value_len) is None <==> key_len < 4294967296 && value_len
            < 4294967296,
        store::length_fault(key_len, value_len) == Some(store::StoreError::KeyTooLong) <==> key_len
            >= 4294967296,
        store::length_fault(key_len, value_len) == Some(store::StoreError::ValueTooLong) <==> key_len
            < 4294967296 && value_len >= 4294967296,
{
}

/// What a put writes, byte for byte: at the write offset a zero, the lengths of
/// key and value, the key with a NUL between bucket and key, and the whole value;
/// the index will point at the value.
pub proof fn law_put_bytes(
    s: StoreView,
    bucket: Seq<char>,
    key: Seq<char>,
    value: Seq<u8>,
)
    requires
        encode_utf8(bucket + seq!['\0'] + key).len() < 4294967296,
        value.len() < 4294967296,
    ensures
        ({
            let name = bucket + seq!['\0'] + key;
            let bytes = encode_utf8(name);
            let k = bytes.len() as int;
            let append = s.putting(bucket, key, value);
            &&& append.offset == s.write_offset
            &&& append.key == name
            &&& append.value == Some(
                Location { offset: (s.write_offset + 9 + k) as nat, size: value.len() },
            )
            &&& append.record.len() == 9 + k + value.len()
            &&& append.record[0] == 0
            &&& number(append.record, 1) == k
            &&& number(append.record, 5) == value.len()
            &&& append.record.subrange(9, 9 + k) == bytes
            &&& append.record.skip(9 + k) == value
        }),
{
    let name = bucket + seq!['\0'] + key;
    assert(store::composite_key(bucket, key) == name);
    lemma_record_layout(store::FLAG_NORMAL, name, value);
}

/// What a delete writes, byte for byte: at the write offset a one, the length of
/// the key, no value, and the key.
pub proof fn law_delete_bytes(s: StoreView, bucket: Seq<char>, key: Seq<char>)
    requires
        encode_utf8(bucket + seq!['\0'] + key).len() < 4294967296,
    ensures
        ({
            let name = bucket + seq!['\0'] + key;
            let bytes = encode_utf8(name);
            let append = s.deleting(bucket, key);
            &&& append.offset == s.write_offset
            &&& append.key == name
            &&& append.value is None
            &&& append.record.len() == 9 + bytes.len()
            &&& append.record[0] == 1
            &&& number(append.record, 1) == bytes.len()
            &&& number(append.record, 5) == 0
            &&& append.record.skip(9) == bytes
        }),
{
    let name = bucket + seq!['\0'] + key;
    assert(store::composite_key(bucket, key) == name);
    lemma_record_layout(store::FLAG_TOMBSTONE, name, Seq::empty());
    let record = s.deleting(bucket, key).record;
    assert(record.skip(9) == record.subrange(9, record.len() as int));
}

proof fn lemma_record_layout(flags: u8, key: Seq<char>, value: Seq<u8>)
    requires
        encode_utf8(key).len() < 4294967296,
        value.len() < 4294967296,
    ensures
        ({
            let record = store::record_bytes(flags, key, value);
            let k = encode_utf8(key).len() as int;
            &&& record.len() == 9 + k + value.len()
            &&& record[0] == flags
            &&& number(record, 1) == k
            &&& number(record, 5) == value.len()
            &&& record.subrange(9, 9 + k) == encode_utf8(key)
            &&& record.skip(9 + k) == value
        }),
{
    let record = store::record_bytes(flags, key, value);
    let a = store::le_bytes(encode_utf8(key).len());
    let b = store::le_bytes(value.len());
    lemma_le_round_trip(encode_utf8(key).len());
    lemma_le_round_trip(value.len());
    assert(record[1] == a[0] && record[2] == a[1] && record[3] == a[2] && record[4] == a[3]);
    assert(record[5] == b[0] && record[6] == b[1] && record[7] == b[2] && record[8] == b[3]);
}

/// What the bytes of a log say at an offset: a record where the nine bytes of a
/// header, the key and the value that it announces lie in the log and the key is
/// UTF-8, and nothing otherwise. A one in front, and nothing else, makes it a
/// tombstone.
pub proof fn law_record_in_log(log: Seq<u8>, offset: nat)
    ensures
        ({
            let at = offset as int;
            let k = number(log, at + 1);
            let v = number(log, at + 5);
            let key = log.subrange(at + 9, at + 9 + k);
            store::record_at(log, offset) == if offset + 9 <= log.len() && offset + 9 + k + v
                <= log.len() && valid_utf8(key) {
                Some(
                    Record {
                        tombstone: log[at] == 1,
                        key: decode_utf8(key),
                        value: Location { offset: (offset + 9 + k) as nat, size: v },
                    },
                )
            } else {
                None
            }
        }),
{
    let at = offset as int;
    if offset + 9 <= log.len() {
        let header = store::header_at(log, offset);
        let a = header.subrange(1, 5);
        let b = header.subrange(5, 9);
        assert(a[0] == log[at + 1] && a[1] == log[at + 2] && a[2] == log[at + 3]
            && a[3] == log[at + 4]);
        assert(b[0] == log[at + 5] && b[1] == log[at + 6] && b[2] == log[at + 7]
            && b[3] == log[at + 8]);
        assert(header[0] == log[at]);
    }
}

/// A replay starts at the front of the log with nothing in the index, goes from
/// each record to what follows it, taking its key in or out, and ends where
/// there is no record.
pub proof fn law_replay_goes_on(log: Seq<u8>, offset: nat, index: Map<Seq<char>, Location>)
    ensures
        store::replay(log) == store::replay_from(log, 0, Map::empty()),
        match store::record_at(log, offset) {
            Some(r) => store::replay_from(log, offset, index) == store::replay_from(
                log,
                r.value.offset + r.value.size,
                if r.tombstone {
                    index.remove(r.key)
                } else {
                    index.insert(r.key, r.value)
                },
            ),
            None => store::replay_from(log, offset, index) == (Recovered { index, end: offset }),
        },
{
}

/// Before anything is written there is nothing in the store, and the first
/// record goes to the front.
pub proof fn law_empty_log()
    ensures
        store::replay(Seq::<u8>::empty()) == (Recovered { index: Map::empty(), end: 0 }),
{
}

/// A record that was written moves the write offset to its end and the index to
/// its value, or takes its key out; nothing else changes.
pub proof fn law_commit(s: StoreView, append: AppendView)
    ensures
        ({
            let after = s.committed(append);
            &&& after.write_offset == s.write_offset + append.record.len()
            &&& append.value matches Some(loc) ==> after.index == s.index.insert(append.key, loc)
            &&& append.value is None ==> after.index == s.index.remove(append.key)
        }),
{
}

/// A lookup gives the place that the index has for the key with a NUL between
/// bucket and key, and nothing where the index has none.
pub proof fn law_lookup(s: StoreView, bucket: Seq<char>, key: Seq<char>)
    ensures
        ({
            let name = bucket + seq!['\0'] + key;
            &&& s.index.contains_key(name) ==> s.location(bucket, key) == Some(s.index[name])
            &&& !s.index.contains_key(name) ==> s.location(bucket, key) is None
        }),
{
    assert(store::composite_key(bucket, key) == bucket + seq!['\0'] + key);
}

} // verus!
