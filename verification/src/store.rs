//! An object store in the shape of an append-only log and an index over it.
//!
//! Every write is a record at the end of the log. The index maps a key to the
//! place of its latest value. The index lives in memory only; it is rebuilt by
//! replaying the log. This module decides which bytes go where and what they
//! mean; reading and writing the file is the caller's.

use vstd::hash_map::StringHashMap;
use vstd::prelude::*;
use vstd::utf8::*;

use crate::text;

verus! {

/// The length of a record's header: flags, key length and value length.
pub const HEADER_LEN: u64 = 9;

/// The flag of a record that holds a value.
pub const FLAG_NORMAL: u8 = 0;

/// The flag of a record that removes its key.
pub const FLAG_TOMBSTONE: u8 = 1;

/// Where a value stands in the log.
#[derive(Debug, Clone, Copy, PartialEq, Eq, Structural)]
pub struct ValueLoc {
    pub offset: u64,
    pub size: u32,
}

/// The mathematical value of a [`ValueLoc`].
pub struct Location {
    pub offset: nat,
    pub size: nat,
}

impl View for ValueLoc {
    type V = Location;

    open spec fn view(&self) -> Location {
        Location { offset: self.offset as nat, size: self.size as nat }
    }
}

// ---------------------------------------------------------------------------
// Records
// ---------------------------------------------------------------------------

/// The key of an object in the log: bucket and key with a NUL between them, so
/// that slashes in either cannot be confused with the border.
pub open spec fn composite_key(bucket: Seq<char>, key: Seq<char>) -> Seq<char> {
    bucket.push('\0') + key
}

/// A 32-bit number as four bytes, least significant first.
pub open spec fn le_bytes(n: nat) -> Seq<u8>
    recommends
        n <= u32::MAX,
{
    seq![
        (n % 256) as u8,
        (n / 256 % 256) as u8,
        (n / 65536 % 256) as u8,
        (n / 16777216 % 256) as u8,
    ]
}

/// The number that four bytes hold, least significant first.
pub open spec fn le_value(bytes: Seq<u8>) -> nat {
    (bytes[0] + bytes[1] * 256 + bytes[2] * 65536 + bytes[3] * 16777216) as nat
}

/// A record: flags, key length, value length, key, value.
pub open spec fn record_bytes(flags: u8, key: Seq<char>, value: Seq<u8>) -> Seq<u8> {
    let key_bytes = encode_utf8(key);
    seq![flags] + le_bytes(key_bytes.len()) + le_bytes(value.len()) + key_bytes + value
}

/// Why a record cannot be written: its header has 32 bits for each length.
#[derive(Debug, Clone, Copy, PartialEq, Eq, Structural)]
pub enum StoreError {
    /// Bucket and key together take up too many bytes.
    KeyTooLong,
    /// The value has too many bytes.
    ValueTooLong,
}

/// What stands against a record with a key and a value of so many bytes.
pub open spec fn length_fault(key_len: nat, value_len: nat) -> Option<StoreError> {
    if key_len > u32::MAX {
        Some(StoreError::KeyTooLong)
    } else if value_len > u32::MAX {
        Some(StoreError::ValueTooLong)
    } else {
        None
    }
}

/// A header has room for the lengths of the key and the value.
pub open spec fn encodable(key: Seq<char>, value: Seq<u8>) -> bool {
    length_fault(encode_utf8(key).len(), value.len()) is None
}

/// What a record in the log says.
pub struct Record {
    pub tombstone: bool,
    pub key: Seq<char>,
    pub value: Location,
}

impl Record {
    /// The offset just after the record.
    pub open spec fn end(self) -> nat {
        self.value.offset + self.value.size
    }
}

/// The header of the record at `offset`.
pub open spec fn header_at(log: Seq<u8>, offset: nat) -> Seq<u8> {
    log.subrange(offset as int, offset + HEADER_LEN)
}

/// The length of the key, in bytes, that a header states.
pub open spec fn header_key_len(header: Seq<u8>) -> nat {
    le_value(header.subrange(1, 5))
}

/// The length of the value that a header states.
pub open spec fn header_value_len(header: Seq<u8>) -> nat {
    le_value(header.subrange(5, 9))
}

/// The record that starts at `offset`. There is none where the log ends before
/// the record does, or where the key is not UTF-8.
pub open spec fn record_at(log: Seq<u8>, offset: nat) -> Option<Record> {
    if offset + HEADER_LEN > log.len() {
        None
    } else {
        let header = header_at(log, offset);
        let key_len = header_key_len(header);
        let value_len = header_value_len(header);
        let key_start = offset + HEADER_LEN;
        let value_start = key_start + key_len;
        let key_bytes = log.subrange(key_start as int, value_start as int);
        if value_start + value_len > log.len() || !valid_utf8(key_bytes) {
            None
        } else {
            Some(
                Record {
                    tombstone: header[0] == FLAG_TOMBSTONE,
                    key: decode_utf8(key_bytes),
                    value: Location { offset: value_start as nat, size: value_len },
                },
            )
        }
    }
}

/// The index after one more record.
pub open spec fn index_with(index: Map<Seq<char>, Location>, record: Record) -> Map<
    Seq<char>,
    Location,
> {
    if record.tombstone {
        index.remove(record.key)
    } else {
        index.insert(record.key, record.value)
    }
}

/// What a replay recovers: the index, and the offset where the sound records
/// end.
pub struct Recovered {
    pub index: Map<Seq<char>, Location>,
    pub end: nat,
}

/// Replays the records from `offset` on, up to the first place that holds none.
pub open spec fn replay_from(
    log: Seq<u8>,
    offset: nat,
    index: Map<Seq<char>, Location>,
) -> Recovered
    decreases log.len() - offset,
{
    match record_at(log, offset) {
        None => Recovered { index, end: offset },
        Some(record) => replay_from(log, record.end(), index_with(index, record)),
    }
}

/// Replays the whole log.
pub open spec fn replay(log: Seq<u8>) -> Recovered {
    replay_from(log, 0, Map::empty())
}

/// The locations that an index of the store holds.
pub open spec fn index_view(index: Map<Seq<char>, ValueLoc>) -> Map<Seq<char>, Location> {
    index.map_values(|loc: ValueLoc| loc@)
}

/// The key of an object in the log.
pub fn compose_key(bucket: &str, key: &str) -> (composite: String)
    ensures
        composite@ == composite_key(bucket@, key@),
{
    let mut composite = bucket.to_owned();
    composite.push('\0');
    composite.append(key);
    composite
}

/// Whether a header has room for the lengths of a key and a value, and if not,
/// what stands against it.
pub fn check_lengths(key_len: usize, value_len: usize) -> (r: Result<(), StoreError>)
    ensures
        match r {
            Ok(()) => length_fault(key_len as nat, value_len as nat) is None,
            Err(e) => length_fault(key_len as nat, value_len as nat) == Some(e),
        },
{
    if key_len as u64 > u32::MAX as u64 {
        Err(StoreError::KeyTooLong)
    } else if value_len as u64 > u32::MAX as u64 {
        Err(StoreError::ValueTooLong)
    } else {
        Ok(())
    }
}

/// Appends a 32-bit number as four bytes, least significant first.
fn push_le(out: &mut Vec<u8>, n: usize)
    requires
        n <= u32::MAX,
    ensures
        final(out)@ == old(out)@ + le_bytes(n as nat),
{
    out.push((n % 256) as u8);
    out.push((n / 256 % 256) as u8);
    out.push((n / 65536 % 256) as u8);
    out.push((n / 16777216 % 256) as u8);
}

/// The number that four bytes hold, least significant first.
fn read_le(b0: u8, b1: u8, b2: u8, b3: u8) -> (n: u32)
    ensures
        n == le_value(seq![b0, b1, b2, b3]),
{
    b0 as u32 + b1 as u32 * 256 + b2 as u32 * 65536 + b3 as u32 * 16777216
}

/// The bytes of a record.
fn build_record(flags: u8, key: &str, value: &[u8]) -> (record: Vec<u8>)
    requires
        encodable(key@, value@),
    ensures
        record@ == record_bytes(flags, key@, value@),
{
    let key_bytes = key.as_bytes();
    let mut record: Vec<u8> = Vec::new();
    record.push(flags);
    assert(record@ == seq![flags]);
    push_le(&mut record, key_bytes.len());
    push_le(&mut record, value.len());
    record.extend_from_slice(key_bytes);
    record.extend_from_slice(value);
    record
}

// ---------------------------------------------------------------------------
// Replay
// ---------------------------------------------------------------------------

/// What a replay needs next.
#[derive(Debug, Clone, Copy, PartialEq, Eq, Structural)]
pub enum ReplayAction {
    /// The bytes of a record's header, from `offset` on.
    ReadHeader { offset: u64 },
    /// The bytes of a record's key, from `offset` on.
    ReadKey { offset: u64, len: u32 },
    /// Nothing: the replay has come to its end.
    Done,
}

/// Where a replay stands inside a record.
#[derive(Debug, Clone, Copy, PartialEq, Eq, Structural)]
pub enum Stage {
    Header,
    Key { tombstone: bool, key_len: u32, value_len: u32 },
    Finished,
}

impl Stage {
    /// How many more steps the record at hand can take.
    pub open spec fn rank(self) -> nat {
        match self {
            Stage::Header => 2,
            Stage::Key { .. } => 1,
            Stage::Finished => 0,
        }
    }
}

/// A replay in progress over a log that the caller reads piece by piece. Values
/// are never read, only stepped over.
pub struct Replay {
    end: u64,
    offset: u64,
    index: StringHashMap<ValueLoc>,
    stage: Stage,
}

/// The mathematical value of a [`Replay`].
#[verifier::ext_equal]
pub struct ReplayView {
    pub end: nat,
    pub offset: nat,
    pub index: Map<Seq<char>, Location>,
    pub stage: Stage,
}

impl View for Replay {
    type V = ReplayView;

    closed spec fn view(&self) -> ReplayView {
        ReplayView {
            end: self.end as nat,
            offset: self.offset as nat,
            index: index_view(self.index@),
            stage: self.stage,
        }
    }
}

impl ReplayView {
    /// A replay that stands before the record at `offset`.
    pub open spec fn at(end: nat, offset: nat, index: Map<Seq<char>, Location>) -> ReplayView {
        ReplayView {
            end,
            offset,
            index,
            stage: if offset + HEADER_LEN <= end {
                Stage::Header
            } else {
                Stage::Finished
            },
        }
    }

    /// The whole record ahead lies inside the log, as far as it is known.
    pub open spec fn wf(self) -> bool {
        &&& self.offset <= self.end <= u64::MAX
        &&& match self.stage {
            Stage::Header => self.offset + HEADER_LEN <= self.end,
            Stage::Key { tombstone, key_len, value_len } => self.offset + HEADER_LEN + key_len
                + value_len <= self.end,
            Stage::Finished => true,
        }
    }

    /// The replay after it was given the header at its offset.
    pub open spec fn after_header(self, header: Seq<u8>) -> ReplayView {
        let key_len = header_key_len(header);
        let value_len = header_value_len(header);
        ReplayView {
            stage: if self.offset + HEADER_LEN + key_len + value_len > self.end {
                Stage::Finished
            } else {
                Stage::Key {
                    tombstone: header[0] == FLAG_TOMBSTONE,
                    key_len: key_len as u32,
                    value_len: value_len as u32,
                }
            },
            ..self
        }
    }

    /// The replay after it was given the key of the record at its offset.
    pub open spec fn after_key(self, key: Seq<u8>) -> ReplayView {
        match self.stage {
            Stage::Key { tombstone, key_len, value_len } => if valid_utf8(key) {
                let value = Location {
                    offset: (self.offset + HEADER_LEN + key_len) as nat,
                    size: value_len as nat,
                };
                let record = Record { tombstone, key: decode_utf8(key), value };
                ReplayView::at(self.end, record.end(), index_with(self.index, record))
            } else {
                ReplayView { stage: Stage::Finished, ..self }
            },
            _ => self,
        }
    }

    /// The bytes of `log` that the replay has been given lead to where it
    /// stands: going on from here recovers what replaying all of `log` does.
    pub open spec fn follows(self, log: Seq<u8>) -> bool {
        &&& log.len() == self.end
        &&& replay(log) == replay_from(log, self.offset, self.index)
        &&& match self.stage {
            Stage::Header => true,
            Stage::Key { tombstone, key_len, value_len } => {
                &&& self.offset + HEADER_LEN <= log.len()
                &&& tombstone == (header_at(log, self.offset)[0] == FLAG_TOMBSTONE)
                &&& key_len == header_key_len(header_at(log, self.offset))
                &&& value_len == header_value_len(header_at(log, self.offset))
            },
            Stage::Finished => record_at(log, self.offset) is None,
        }
    }
}

impl Replay {
    /// Starts the replay of a log that is `end` bytes long.
    pub fn begin(end: u64) -> (replay: Replay)
        ensures
            replay@ == ReplayView::at(end as nat, 0, Map::empty()),
            replay@.wf(),
            forall|log: Seq<u8>| log.len() == end ==> #[trigger] replay@.follows(log),
    {
        let index: StringHashMap<ValueLoc> = StringHashMap::new();
        assert(index_view(index@) == Map::<Seq<char>, Location>::empty());
        Replay {
            end,
            offset: 0,
            index,
            stage: if end >= HEADER_LEN {
                Stage::Header
            } else {
                Stage::Finished
            },
        }
    }

    /// What the replay needs next.
    pub fn action(&self) -> (action: ReplayAction)
        requires
            self@.wf(),
        ensures
            action == (match self@.stage {
                Stage::Header => ReplayAction::ReadHeader { offset: self@.offset as u64 },
                Stage::Key { tombstone, key_len, value_len } => ReplayAction::ReadKey {
                    offset: (self@.offset + HEADER_LEN) as u64,
                    len: key_len,
                },
                Stage::Finished => ReplayAction::Done,
            }),
    {
        match self.stage {
            Stage::Header => ReplayAction::ReadHeader { offset: self.offset },
            Stage::Key { tombstone, key_len, value_len } => ReplayAction::ReadKey {
                offset: self.offset + HEADER_LEN,
                len: key_len,
            },
            Stage::Finished => ReplayAction::Done,
        }
    }

    /// Takes the header that the replay asked for. A record that does not fit
    /// into the log ends the replay.
    pub fn feed_header(&mut self, header: &[u8])
        requires
            old(self)@.wf(),
            old(self)@.stage is Header,
            header@.len() == HEADER_LEN,
        ensures
            final(self)@ == old(self)@.after_header(header@),
            final(self)@.wf(),
            forall|log: Seq<u8>|
                #[trigger] old(self)@.follows(log) && header@ == header_at(
                    log,
                    old(self)@.offset,
                ) ==> final(self)@.follows(log),
    {
        let key_len = read_le(header[1], header[2], header[3], header[4]);
        let value_len = read_le(header[5], header[6], header[7], header[8]);
        proof {
            assert(header@.subrange(1, 5) == seq![header@[1], header@[2], header@[3], header@[4]]);
            assert(header@.subrange(5, 9) == seq![header@[5], header@[6], header@[7], header@[8]]);
        }
        if self.end - self.offset - HEADER_LEN < key_len as u64 + value_len as u64 {
            self.stage = Stage::Finished;
        } else {
            self.stage = Stage::Key { tombstone: header[0] == FLAG_TOMBSTONE, key_len, value_len };
        }
    }

    /// Takes the key that the replay asked for, and steps over the value. A key
    /// that is not UTF-8 ends the replay.
    pub fn feed_key(&mut self, key: &[u8])
        requires
            old(self)@.wf(),
            old(self)@.stage matches Stage::Key { tombstone, key_len, value_len } && key@.len()
                == key_len,
        ensures
            final(self)@ == old(self)@.after_key(key@),
            final(self)@.wf(),
            forall|log: Seq<u8>|
                #[trigger] old(self)@.follows(log) && key@ == log.subrange(
                    old(self)@.offset + HEADER_LEN,
                    old(self)@.offset + HEADER_LEN + key@.len(),
                ) ==> final(self)@.follows(log),
    {
        if let Stage::Key { tombstone, key_len, value_len } = self.stage {
            match text::str_from_utf8(key) {
                None => {
                    self.stage = Stage::Finished;
                },
                Some(name) => {
                    let value_offset: u64 = self.offset + HEADER_LEN + key_len as u64;
                    let ghost before = self.index@;
                    if tombstone {
                        self.index.remove(name);
                        assert(index_view(self.index@) == index_view(before).remove(name@));
                    } else {
                        let loc = ValueLoc { offset: value_offset, size: value_len };
                        self.index.insert(name.to_owned(), loc);
                        assert(index_view(self.index@) == index_view(before).insert(name@, loc@));
                    }
                    self.offset = value_offset + value_len as u64;
                    self.stage = if self.end - self.offset >= HEADER_LEN {
                        Stage::Header
                    } else {
                        Stage::Finished
                    };
                },
            }
        }
        proof {
            assert forall|log: Seq<u8>|
                #[trigger] old(self)@.follows(log) && key@ == log.subrange(
                    old(self)@.offset + HEADER_LEN,
                    old(self)@.offset + HEADER_LEN + key@.len(),
                ) implies self@.follows(log) by {
                if valid_utf8(key@) {
                    let record = record_at(log, old(self)@.offset).unwrap();
                    assert(self@.offset == record.end());
                    assert(self@.index == index_with(old(self)@.index, record));
                }
            }
        }
    }
}

/// Replays a log that is held in memory: the index, and the offset where the
/// sound records end.
pub fn replay_log(log: &[u8]) -> (done: Replay)
    ensures
        done@.wf(),
        done@.stage is Finished,
        done@.index == replay(log@).index,
        done@.offset == replay(log@).end,
{
    let len: usize = log.len();
    let mut replay = Replay::begin(len as u64);
    loop
        invariant
            len == log@.len(),
            replay@.wf(),
            replay@.follows(log@),
        ensures
            replay@.wf(),
            replay@.follows(log@),
            replay@.stage is Finished,
        decreases replay@.end - replay@.offset, replay@.stage.rank(),
    {
        match replay.action() {
            ReplayAction::ReadHeader { offset } => {
                let from: usize = offset as usize;
                replay.feed_header(vstd::slice::slice_subrange(log, from, from + 9));
            },
            ReplayAction::ReadKey { offset, len } => {
                let from: usize = offset as usize;
                replay.feed_key(vstd::slice::slice_subrange(log, from, from + len as usize));
            },
            ReplayAction::Done => {
                break;
            },
        }
    }
    replay
}

// ---------------------------------------------------------------------------
// The store
// ---------------------------------------------------------------------------

/// The state of an open store: where the next record goes, and the index.
pub struct ObjectStore {
    write_offset: u64,
    index: StringHashMap<ValueLoc>,
}

/// The mathematical value of an [`ObjectStore`].
#[verifier::ext_equal]
pub struct StoreView {
    pub write_offset: nat,
    pub index: Map<Seq<char>, Location>,
}

impl View for ObjectStore {
    type V = StoreView;

    closed spec fn view(&self) -> StoreView {
        StoreView { write_offset: self.write_offset as nat, index: index_view(self.index@) }
    }
}

/// A record that is to be written to the log: the log is cut at the offset, and
/// the record becomes its end. The cut takes away what a torn write or other
/// damage left behind, so that none of it can be taken for a record later. Once
/// the record is written, [`ObjectStore::commit`] takes note of it.
pub struct Append {
    offset: u64,
    record: Vec<u8>,
    key: String,
    value: Option<ValueLoc>,
}

/// The mathematical value of an [`Append`].
#[verifier::ext_equal]
pub struct AppendView {
    pub offset: nat,
    pub record: Seq<u8>,
    pub key: Seq<char>,
    /// Where the value will stand; `None` where the key is removed.
    pub value: Option<Location>,
}

impl View for Append {
    type V = AppendView;

    closed spec fn view(&self) -> AppendView {
        AppendView {
            offset: self.offset as nat,
            record: self.record@,
            key: self.key@,
            value: match self.value {
                Some(loc) => Some(loc@),
                None => None,
            },
        }
    }
}

impl Append {
    /// The offset at which the log is to be cut and the record to be written.
    pub fn offset(&self) -> (offset: u64)
        ensures
            offset == self@.offset,
    {
        self.offset
    }

    /// The bytes to write.
    pub fn record(&self) -> (record: &[u8])
        ensures
            record@ == self@.record,
    {
        self.record.as_slice()
    }
}

impl StoreView {
    /// The record that stores `value`.
    pub open spec fn putting(
        self,
        bucket: Seq<char>,
        key: Seq<char>,
        value: Seq<u8>,
    ) -> AppendView {
        let composite = composite_key(bucket, key);
        AppendView {
            offset: self.write_offset,
            record: record_bytes(FLAG_NORMAL, composite, value),
            key: composite,
            value: Some(
                Location {
                    offset: (self.write_offset + HEADER_LEN + encode_utf8(composite).len()) as nat,
                    size: value.len(),
                },
            ),
        }
    }

    /// The record that removes a key.
    pub open spec fn deleting(self, bucket: Seq<char>, key: Seq<char>) -> AppendView {
        let composite = composite_key(bucket, key);
        AppendView {
            offset: self.write_offset,
            record: record_bytes(FLAG_TOMBSTONE, composite, Seq::empty()),
            key: composite,
            value: None,
        }
    }

    /// The store once the record is in the log.
    pub open spec fn committed(self, append: AppendView) -> StoreView {
        StoreView {
            write_offset: self.write_offset + append.record.len(),
            index: match append.value {
                Some(loc) => self.index.insert(append.key, loc),
                None => self.index.remove(append.key),
            },
        }
    }

    /// Where the value of an object stands.
    pub open spec fn location(self, bucket: Seq<char>, key: Seq<char>) -> Option<Location> {
        let composite = composite_key(bucket, key);
        if self.index.contains_key(composite) {
            Some(self.index[composite])
        } else {
            None
        }
    }
}

impl ObjectStore {
    /// Opens a store on a log that has been replayed. New records go where the
    /// sound ones end.
    pub fn open(replay: Replay) -> (store: ObjectStore)
        requires
            replay@.stage is Finished,
        ensures
            store@ == (StoreView { write_offset: replay@.offset, index: replay@.index }),
    {
        ObjectStore { write_offset: replay.offset, index: replay.index }
    }

    /// Whether the log has room for a record of bucket and key with a value of
    /// `value_len` bytes before its offsets run out.
    pub fn has_room(&self, bucket: &str, key: &str, value_len: usize) -> (r: bool)
        ensures
            r == (self@.write_offset + HEADER_LEN + encode_utf8(
                composite_key(bucket@, key@),
            ).len() + value_len <= u64::MAX),
    {
        let composite = compose_key(bucket, key);
        let key_len = composite.as_str().as_bytes().len();
        let free: u64 = u64::MAX - self.write_offset;
        free >= HEADER_LEN && free - HEADER_LEN >= key_len as u64 && free - HEADER_LEN
            - key_len as u64 >= value_len as u64
    }

    /// The record that stores `value` under bucket and key, or why there can be
    /// none. The store itself does not change until the record is written and
    /// committed.
    pub fn put(&self, bucket: &str, key: &str, value: &[u8]) -> (r: Result<Append, StoreError>)
        requires
            self@.write_offset + HEADER_LEN + encode_utf8(composite_key(bucket@, key@)).len()
                + value@.len() <= u64::MAX,
        ensures
            match r {
                Ok(append) => {
                    &&& encodable(composite_key(bucket@, key@), value@)
                    &&& append@ == self@.putting(bucket@, key@, value@)
                    &&& append@.offset + append@.record.len() <= u64::MAX
                },
                Err(e) => length_fault(
                    encode_utf8(composite_key(bucket@, key@)).len(),
                    value@.len(),
                ) == Some(e),
            },
    {
        let composite = compose_key(bucket, key);
        let key_len = composite.as_str().as_bytes().len();
        if let Err(e) = check_lengths(key_len, value.len()) {
            return Err(e);
        }
        let record = build_record(FLAG_NORMAL, composite.as_str(), value);
        let loc = ValueLoc {
            offset: self.write_offset + HEADER_LEN + key_len as u64,
            size: value.len() as u32,
        };
        Ok(Append { offset: self.write_offset, record, key: composite, value: Some(loc) })
    }

    /// Where the latest value of bucket and key stands in the log, or `None`
    /// where there is none.
    pub fn get(&self, bucket: &str, key: &str) -> (loc: Option<ValueLoc>)
        ensures
            match loc {
                Some(loc) => self@.location(bucket@, key@) == Some(loc@),
                None => self@.location(bucket@, key@) is None,
            },
    {
        let composite = compose_key(bucket, key);
        match self.index.get(composite.as_str()) {
            Some(loc) => Some(*loc),
            None => None,
        }
    }

    /// The record that removes bucket and key, or why there can be none. It is
    /// written whether or not the key is there, so that the removal outlives a
    /// restart.
    pub fn delete(&self, bucket: &str, key: &str) -> (r: Result<Append, StoreError>)
        requires
            self@.write_offset + HEADER_LEN + encode_utf8(composite_key(bucket@, key@)).len()
                <= u64::MAX,
        ensures
            match r {
                Ok(append) => {
                    &&& encodable(composite_key(bucket@, key@), Seq::empty())
                    &&& append@ == self@.deleting(bucket@, key@)
                    &&& append@.offset + append@.record.len() <= u64::MAX
                },
                Err(e) => length_fault(encode_utf8(composite_key(bucket@, key@)).len(), 0) == Some(
                    e,
                ),
            },
    {
        let composite = compose_key(bucket, key);
        if let Err(e) = check_lengths(composite.as_str().as_bytes().len(), 0) {
            return Err(e);
        }
        let empty: Vec<u8> = Vec::new();
        assert(empty@ == Seq::<u8>::empty());
        let record = build_record(FLAG_TOMBSTONE, composite.as_str(), empty.as_slice());
        Ok(Append { offset: self.write_offset, record, key: composite, value: None })
    }

    /// Takes note that a record has been written.
    pub fn commit(&mut self, append: Append)
        requires
            append@.offset == old(self)@.write_offset,
            append@.offset + append@.record.len() <= u64::MAX,
        ensures
            final(self)@ == old(self)@.committed(append@),
    {
        let ghost before = self.index@;
        match append.value {
            Some(loc) => {
                let ghost key = append.key@;
                self.index.insert(append.key, loc);
                assert(index_view(self.index@) == index_view(before).insert(key, loc@));
            },
            None => {
                self.index.remove(append.key.as_str());
                assert(index_view(self.index@) == index_view(before).remove(append.key@));
            },
        }
        self.write_offset = self.write_offset + append.record.len() as u64;
    }
}

} // verus!
