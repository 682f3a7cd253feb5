//! The store: puts payloads into the blob store and records into the index,
//! lists records in id order, and reads payloads back by hash.
use crate::cas::{
    base64_ok, cas_read, cas_write, integrity_of, integrity_parses, integrity_usable,
    is_sha256_descriptor, parse_integrity, sha256_descriptor,
};
use crate::error::StoreError;
use crate::ids::{clock_id, next_id};
use crate::index::{
    index_contents, index_entries, index_first, index_flush, index_insert, index_last_key, index_next, index_open,
};
use crate::key::{
    bytes_lt, id_key, id_to_key, key_to_id, key_value, lemma_id_key_value, lemma_key_of_value,
    lemma_key_order, lemma_value_order, KEY_LEN,
};
use crate::record::{
    decode_record, encode_record, lemma_record_round_trip, record_decoding, record_encoding, Frame,
};
use vstd::prelude::*;

verus! {

/// A store rooted at one directory: the index under `index`, the blobs
/// under `cas`.
pub struct Store {
    db: sled::Db,
    cache_path: String,
    last_id: Option<u128>,
}

/// `root` with `leaf` appended as a path component.
pub open spec fn path_join(root: Seq<char>, leaf: Seq<char>) -> Seq<char> {
    root + seq!['/'] + leaf
}

fn join(root: &str, leaf: &str) -> (r: String)
    ensures
        r@ == path_join(root@, leaf@),
{
    let mut p = String::from_str(root);
    p.append("/");
    p.append(leaf);
    proof {
        reveal_strlit("/");
    }
    p
}

/// The byte that ends a line.
pub const NEWLINE: u8 = 10;

/// The payload of one line of input: the line without its final newline.
pub open spec fn line_payload_of(line: Seq<u8>) -> Seq<u8> {
    if line.len() > 0 && line.last() == NEWLINE {
        line.drop_last()
    } else {
        line
    }
}

/// Computes `line_payload_of`.
pub fn line_payload(line: &[u8]) -> (r: Vec<u8>)
    ensures
        r@ == line_payload_of(line@),
{
    let n = line.len();
    if n > 0 && line[n - 1] == NEWLINE {
        let (head, _) = line.split_at(n - 1);
        vstd::slice::slice_to_vec(head)
    } else {
        vstd::slice::slice_to_vec(line)
    }
}

/// How one unit of outside input becomes records.
#[derive(Debug, Clone, Copy, PartialEq, Eq, Structural)]
pub enum IngestMode {
    /// The whole input is one record.
    Whole,
    /// The input is one line; its payload, without the newline, is one record.
    Line,
    /// Each byte of the input is a record of its own.
    Byte,
}

/// The payloads, in order, that `mode` makes of `input`.
pub open spec fn ingest_payloads(mode: IngestMode, input: Seq<u8>) -> Seq<Seq<u8>> {
    match mode {
        IngestMode::Whole => seq![input],
        IngestMode::Line => seq![line_payload_of(input)],
        IngestMode::Byte => Seq::new(input.len(), |i: int| seq![input[i]]),
    }
}

/// An index entry that holds a record stored under the key of its id.
pub open spec fn entry_ok(key: Seq<u8>, value: Seq<u8>) -> bool {
    key.len() == KEY_LEN && (record_decoding(value) matches Some((id, _)) && id == key_value(key))
}

/// Every entry of the index `m` holds a record stored under its id's key.
pub open spec fn index_ok(m: Map<Seq<u8>, Seq<u8>>) -> bool {
    forall|k: Seq<u8>| #[trigger] m.contains_key(k) ==> entry_ok(k, m[k])
}

/// `m` holds the record `f`, under the key of its id.
pub open spec fn holds_frame(m: Map<Seq<u8>, Seq<u8>>, f: Frame) -> bool {
    m.contains_key(id_key(f.id)) && record_decoding(m[id_key(f.id)]) == Some((f.id, f.hash@))
}

/// The record that an index entry holds, checked against the key it is
/// stored under.
pub fn frame_of_entry(key: &[u8], value: &[u8]) -> (r: Result<Frame, StoreError>)
    ensures
        r is Ok <==> entry_ok(key@, value@),
        r matches Ok(f) ==> record_decoding(value@) == Some((f.id, f.hash@)) && f.id == key_value(key@)
            && id_key(f.id) == key@,
        r matches Err(e) ==> e == StoreError::Decode,
{
    let frame = decode_record(value)?;
    if key.len() != KEY_LEN || key_to_id(key) != frame.id {
        return Err(StoreError::Decode);
    }
    proof {
        lemma_key_of_value(key@);
    }
    Ok(frame)
}

/// The records that index entries hold, in the entries' order.
pub fn frames_of_entries(entries: &Vec<(Vec<u8>, Vec<u8>)>) -> (r: Result<Vec<Frame>, StoreError>)
    ensures
        r is Ok <==> forall|j: int| 0 <= j < entries.len() ==> entry_ok(#[trigger] entries[j].0@, entries[j].1@),
        r matches Ok(v) ==> v.len() == entries.len() && forall|j: int| 0 <= j < entries.len()
            ==> record_decoding(#[trigger] entries[j].1@) == Some((v[j].id, v[j].hash@)) && id_key(v[j].id) == entries[j].0@
            && v[j].id == key_value(entries[j].0@),
        r matches Err(e) ==> e == StoreError::Decode,
{
    let mut out: Vec<Frame> = Vec::new();
    let mut i: usize = 0;
    while i < entries.len()
        invariant
            i <= entries.len(),
            out.len() == i,
            forall|j: int| 0 <= j < i ==> entry_ok(#[trigger] entries[j].0@, entries[j].1@),
            forall|j: int| 0 <= j < i ==> record_decoding(#[trigger] entries[j].1@) == Some((out[j].id, out[j].hash@))
                && id_key(out[j].id) == entries[j].0@ && out[j].id == key_value(entries[j].0@),
        decreases entries.len() - i,
    {
        let frame = match frame_of_entry(entries[i].0.as_slice(), entries[i].1.as_slice()) {
            Ok(f) => f,
            Err(e) => {
                assert(!entry_ok(entries[i as int].0@, entries[i as int].1@));
                return Err(e);
            },
        };
        out.push(frame);
        i = i + 1;
    }
    Ok(out)
}

/// The greatest id issued before, read from the index's greatest key.
pub open spec fn last_id_of_key(k: Option<Seq<u8>>) -> Result<Option<u128>, StoreError> {
    match k {
        None => Ok(None),
        Some(k) => if k.len() == KEY_LEN {
            Ok(Some(key_value(k) as u128))
        } else {
            Err(StoreError::Decode)
        },
    }
}

/// Computes `last_id_of_key`.
pub fn last_id_of(k: Option<Vec<u8>>) -> (r: Result<Option<u128>, StoreError>)
    ensures
        r == last_id_of_key(match k {
            None => None,
            Some(k) => Some(k@),
        }),
{
    match k {
        None => Ok(None),
        Some(k) => {
            if k.len() != KEY_LEN {
                return Err(StoreError::Decode);
            }
            Ok(Some(key_to_id(k.as_slice())))
        },
    }
}

/// `after` holds what `before` held, the records `frames`, and nothing else.
pub open spec fn grows_by(
    before: Map<Seq<u8>, Seq<u8>>,
    after: Map<Seq<u8>, Seq<u8>>,
    frames: Seq<Frame>,
) -> bool {
    &&& forall|k: Seq<u8>| #[trigger] before.contains_key(k) ==> after.contains_key(k) && after[k] == before[k]
    &&& forall|j: int| 0 <= j < frames.len() ==> holds_frame(after, #[trigger] frames[j])
    &&& forall|k: Seq<u8>| #[trigger] after.contains_key(k) ==> before.contains_key(k) || exists|j: int|
        0 <= j < frames.len() && id_key(frames[j].id) == k
}

proof fn lemma_grows_by_push(
    m0: Map<Seq<u8>, Seq<u8>>,
    m1: Map<Seq<u8>, Seq<u8>>,
    fs: Seq<Frame>,
    f: Frame,
)
    requires
        grows_by(m0, m1, fs),
        !m1.contains_key(id_key(f.id)),
    ensures
        grows_by(m0, m1.insert(id_key(f.id), record_encoding(f.id, f.hash@)), fs.push(f)),
{
    let m2 = m1.insert(id_key(f.id), record_encoding(f.id, f.hash@));
    let gs = fs.push(f);
    lemma_record_round_trip(f.id, f.hash@);
    assert forall|j: int| 0 <= j < gs.len() implies holds_frame(m2, #[trigger] gs[j]) by {
        if j < fs.len() {
            assert(gs[j] == fs[j]);
            assert(holds_frame(m1, fs[j]));
        }
    }
    assert forall|k: Seq<u8>| #[trigger] m2.contains_key(k) implies m0.contains_key(k) || exists|j: int|
        0 <= j < gs.len() && id_key(gs[j].id) == k by {
        if k == id_key(f.id) {
            assert(gs[fs.len() as int] == f);
        } else if !m0.contains_key(k) {
            assert(m1.contains_key(k));
            let j = choose|j: int| 0 <= j < fs.len() && id_key(fs[j].id) == k;
            assert(gs[j] == fs[j]);
        }
    }
}

impl Store {
    /// The directory of the blob store.
    pub closed spec fn cas_root(&self) -> Seq<char> {
        self.cache_path@
    }

    /// The greatest id this store has issued or found in its index.
    pub closed spec fn last_issued(&self) -> Option<u128> {
        self.last_id
    }

    /// What the index holds, from key bytes to record bytes.
    pub closed spec fn index(&self) -> Map<Seq<u8>, Seq<u8>> {
        index_contents(self.db)
    }

    /// No key of an id in the index lies above the last id issued.
    pub open spec fn wf(&self) -> bool {
        forall|k: Seq<u8>| #[trigger] self.index().contains_key(k) && k.len() == KEY_LEN ==> (
        self.last_issued() matches Some(l) && key_value(k) <= l)
    }

    /// Opens the store rooted at `path`, creating it where it is missing.
    /// The last id issued is the one that the greatest key of the index
    /// spells; a greatest key that spells no id is a decoding error.
    pub fn new(path: &str) -> (r: Result<Store, StoreError>)
        ensures
            r matches Ok(s) ==> {
                &&& s.wf()
                &&& s.cas_root() == path_join(path@, "cas"@)
                &&& s.last_issued() matches Some(l) ==> s.index().contains_key(id_key(l))
                &&& s.last_issued() is None ==> s.index().dom() == Set::<Seq<u8>>::empty()
            },
            r matches Err(e) ==> (e == StoreError::Io || e == StoreError::Decode),
    {
        let index_path = join(path, "index");
        let cache_path = join(path, "cas");
        let db = index_open(index_path.as_str())?;
        let last = index_last_key(&db)?;
        let ghost last_key = match last {
            None => None,
            Some(ref k) => Some(k@),
        };
        let last_id = last_id_of(last)?;
        let s = Store { db, cache_path, last_id };
        proof {
            if let Some(k) = last_key {
                lemma_key_of_value(k);
                assert forall|k2: Seq<u8>| #[trigger] s.index().contains_key(k2) && k2.len() == KEY_LEN
                    implies key_value(k2) <= key_value(k) by {
                    if key_value(k) < key_value(k2) {
                        lemma_value_order(k, k2);
                    }
                }
            }
        }
        Ok(s)
    }

    /// The directory of the blob store.
    pub fn cache_path(&self) -> (r: &str)
        ensures
            r@ == self.cas_root(),
    {
        self.cache_path.as_str()
    }

    /// Stores `content` and records it under a fresh id, greater than every
    /// id issued before. An id is issued once the blob store is about to be
    /// written: a put that fails after that does not hand its id out again.
    pub fn put(&mut self, content: &[u8]) -> (r: Result<Frame, StoreError>)
        requires
            old(self).wf(),
        ensures
            final(self).wf(),
            final(self).cas_root() == old(self).cas_root(),
            r matches Ok(f) ==> {
                &&& f.hash@ == integrity_of(content@)
                &&& is_sha256_descriptor(f.hash@)
                &&& (old(self).last_issued() matches Some(l) ==> f.id > l)
                &&& final(self).last_issued() == Some(f.id)
                &&& !old(self).index().contains_key(id_key(f.id))
                &&& final(self).index() == old(self).index().insert(id_key(f.id), record_encoding(f.id, f.hash@))
                &&& grows_by(old(self).index(), final(self).index(), seq![f])
            },
            r == Err::<Frame, StoreError>(StoreError::IdsExhausted) <==> old(self).last_issued()
                == Some(u128::MAX),
            r == Err::<Frame, StoreError>(StoreError::IdsExhausted) ==> final(self).last_issued()
                == old(self).last_issued() && final(self).index() == old(self).index(),
            r == Err::<Frame, StoreError>(StoreError::Io) ==> (final(self).last_issued() matches Some(
                n) && (old(self).last_issued() matches Some(l) ==> n > l) && (final(self).index() == old(self).index()
                || final(self).index() == old(self).index().insert(id_key(n), record_encoding(n, integrity_of(content@))))),
            r matches Err(e) ==> (e == StoreError::Io || e == StoreError::IdsExhausted),
    {
        let id = match next_id(self.last_id, clock_id()) {
            Some(id) => id,
            None => return Err(StoreError::IdsExhausted),
        };
        let ghost before = self.index();
        proof {
            lemma_id_key_value(id);
            assert(!before.contains_key(id_key(id)));
        }
        self.last_id = Some(id);
        let hash = cas_write(self.cache_path.as_str(), content)?;
        let frame = Frame { id, hash };
        let key = id_to_key(id);
        let res = index_insert(&mut self.db, key.as_slice(), encode_record(&frame));
        proof {
            assert forall|k: Seq<u8>| #[trigger] self.index().contains_key(k) && k.len() == KEY_LEN
                implies (self.last_issued() matches Some(l) && key_value(k) <= l) by {
                if k != id_key(id) {
                    assert(before.contains_key(k));
                }
            }
        }
        res?;
        index_flush(&self.db)?;
        proof {
            lemma_grows_by_push(before, before, Seq::empty(), frame);
            assert(Seq::<Frame>::empty().push(frame) == seq![frame]);
        }
        Ok(frame)
    }

    /// Stores one line of input, without its final newline.
    pub fn put_line(&mut self, line: &[u8]) -> (r: Result<Frame, StoreError>)
        requires
            old(self).wf(),
        ensures
            final(self).wf(),
            final(self).cas_root() == old(self).cas_root(),
            r matches Ok(f) ==> {
                &&& f.hash@ == integrity_of(line_payload_of(line@))
                &&& is_sha256_descriptor(f.hash@)
                &&& (old(self).last_issued() matches Some(l) ==> f.id > l)
                &&& final(self).last_issued() == Some(f.id)
                &&& grows_by(old(self).index(), final(self).index(), seq![f])
            },
            r == Err::<Frame, StoreError>(StoreError::IdsExhausted) <==> old(self).last_issued()
                == Some(u128::MAX),
            r matches Err(e) ==> (e == StoreError::Io || e == StoreError::IdsExhausted),
    {
        let payload = line_payload(line);
        self.put(payload.as_slice())
    }

    /// Stores the payloads that `mode` makes of `input`, one record each, in
    /// order. Each record is durable before the next payload is stored.
    pub fn ingest(&mut self, mode: IngestMode, input: &[u8]) -> (r: Result<Vec<Frame>, StoreError>)
        requires
            old(self).wf(),
        ensures
            final(self).wf(),
            final(self).cas_root() == old(self).cas_root(),
            r matches Ok(v) ==> {
                let p = ingest_payloads(mode, input@);
                &&& v.len() == p.len()
                &&& forall|k: int| 0 <= k < v.len() ==> (#[trigger] v[k]).hash@ == integrity_of(p[k])
                &&& forall|a: int, b: int| 0 <= a < b < v.len() ==> v[a].id < v[b].id
                &&& forall|k: int|
                    0 <= k < v.len() ==> (old(self).last_issued() matches Some(l) ==> (#[trigger] v[k]).id > l)
                &&& v.len() > 0 ==> final(self).last_issued() == Some(v[v.len() - 1].id)
                &&& grows_by(old(self).index(), final(self).index(), v@)
            },
            ingest_payloads(mode, input@).len() == 0 ==> (r matches Ok(v) && v.len() == 0),
            old(self).last_issued() == Some(u128::MAX) && ingest_payloads(mode, input@).len() > 0
                ==> r == Err::<Vec<Frame>, StoreError>(StoreError::IdsExhausted),
            r matches Err(e) ==> (e == StoreError::Io || e == StoreError::IdsExhausted),
    {
        match mode {
            IngestMode::Whole => {
                let f = self.put(input)?;
                let v = vec![f];
                assert(v@ == seq![f]);
                Ok(v)
            },
            IngestMode::Line => {
                let f = self.put_line(input)?;
                let v = vec![f];
                assert(v@ == seq![f]);
                Ok(v)
            },
            IngestMode::Byte => {
                let ghost first = old(self).last_issued();
                let ghost start = old(self).index();
                let mut out: Vec<Frame> = Vec::new();
                let mut i: usize = 0;
                while i < input.len()
                    invariant
                        i <= input.len(),
                        out.len() == i,
                        mode == IngestMode::Byte,
                        self.wf(),
                        self.cas_root() == old(self).cas_root(),
                        first == old(self).last_issued(),
                        start == old(self).index(),
                        grows_by(start, self.index(), out@),
                        forall|k: int| 0 <= k < i ==> (#[trigger] out[k]).hash@ == integrity_of(seq![input@[k]]),
                        forall|a: int, b: int| 0 <= a < b < i ==> out[a].id < out[b].id,
                        forall|k: int| 0 <= k < i ==> (first matches Some(l) ==> (#[trigger] out[k]).id > l),
                        i > 0 ==> self.last_issued() == Some(out[i - 1].id),
                        i == 0 ==> self.last_issued() == first,
                    decreases input.len() - i,
                {
                    let one = vec![input[i]];
                    assert(one@ == seq![input@[i as int]]);
                    let ghost mid = self.index();
                    let f = self.put(one.as_slice())?;
                    proof {
                        lemma_grows_by_push(start, mid, out@, f);
                    }
                    out.push(f);
                    i = i + 1;
                }
                proof {
                    let p = ingest_payloads(mode, input@);
                    assert forall|k: int| 0 <= k < out.len() implies (#[trigger] out[k]).hash@ == integrity_of(p[k]) by {
                        assert(p[k] == seq![input@[k]]);
                    }
                }
                Ok(out)
            },
        }
    }

    /// Every record, oldest first: exactly the records that the index holds.
    /// An entry that does not hold a record under its id's key fails the
    /// scan with a decoding error.
    pub fn list(&self) -> (r: Result<Vec<Frame>, StoreError>)
        ensures
            r matches Ok(v) ==> {
                &&& index_ok(self.index())
                &&& forall|j: int| 0 <= j < v.len() ==> holds_frame(self.index(), #[trigger] v[j])
                &&& forall|k: Seq<u8>| #[trigger] self.index().contains_key(k) ==> exists|j: int|
                    0 <= j < v.len() && id_key(v[j].id) == k
                &&& forall|j: int| 0 <= j < v.len() - 1 ==> #[trigger] v[j].id < v[j + 1].id
            },
            !index_ok(self.index()) ==> r is Err,
            r == Err::<Vec<Frame>, StoreError>(StoreError::Decode) ==> !index_ok(self.index()),
            r matches Err(e) ==> (e == StoreError::Io || e == StoreError::Decode),
    {
        let entries = index_entries(&self.db)?;
        let m = Ghost(self.index());
        let res = frames_of_entries(&entries);
        proof {
            if !index_ok(m@) {
                let k = choose|k: Seq<u8>| #[trigger] m@.contains_key(k) && !entry_ok(k, m@[k]);
                let j = choose|j: int| 0 <= j < entries.len() && entries[j].0@ == k;
                assert(!entry_ok(entries[j].0@, entries[j].1@));
            }
            if res is Err {
                let j = choose|j: int| 0 <= j < entries.len() && !entry_ok(#[trigger] entries[j].0@, entries[j].1@);
                assert(m@.contains_key(entries[j].0@));
            }
        }
        let v = res?;
        proof {
            assert forall|k: Seq<u8>| #[trigger] m@.contains_key(k) implies entry_ok(k, m@[k]) by {
                let j = choose|j: int| 0 <= j < entries.len() && entries[j].0@ == k;
                assert(entry_ok(entries[j].0@, entries[j].1@));
            }
            assert forall|j: int| 0 <= j < v.len() implies holds_frame(m@, #[trigger] v[j]) by {
                assert(m@.contains_key(entries[j].0@));
                assert(record_decoding(entries[j].1@) == Some((v[j].id, v[j].hash@)));
            }
            assert forall|k: Seq<u8>| #[trigger] m@.contains_key(k) implies exists|j: int|
                0 <= j < v.len() && id_key(v[j].id) == k by {
                let j = choose|j: int| 0 <= j < entries.len() && entries[j].0@ == k;
                assert(record_decoding(entries[j].1@) == Some((v[j].id, v[j].hash@)));
            }
            assert forall|j: int| 0 <= j < v.len() - 1 implies #[trigger] v[j].id < v[j + 1].id by {
                assert(bytes_lt(entries[j].0@, entries[j + 1].0@));
                assert(record_decoding(entries[j].1@) == Some((v[j].id, v[j].hash@)));
                assert(record_decoding(entries[j + 1].1@) == Some((v[j + 1].id, v[j + 1].hash@)));
                lemma_key_order(entries[j].0@, entries[j + 1].0@);
            }
        }
        Ok(v)
    }

    /// The record that follows the one with id `after` in id order, or the
    /// first record when `after` is none: one step of a scan that holds a
    /// single record in memory at a time.
    pub fn next_after(&self, after: Option<u128>) -> (r: Result<Option<Frame>, StoreError>)
        ensures
            r matches Ok(Some(f)) ==> holds_frame(self.index(), f) && (after matches Some(a) ==> f.id > a),
            r matches Ok(Some(f)) ==> forall|k: Seq<u8>| #[trigger] self.index().contains_key(k)
                && k.len() == KEY_LEN && (after matches Some(a) ==> key_value(k) > a) ==> key_value(k) >= f.id,
            r matches Ok(None) ==> forall|k: Seq<u8>| #[trigger] self.index().contains_key(k)
                && k.len() == KEY_LEN ==> (after matches Some(a) && key_value(k) <= a),
            r matches Err(e) ==> (e == StoreError::Io || e == StoreError::Decode),
    {
        let m = Ghost(self.index());
        let entry = match after {
            None => index_first(&self.db)?,
            Some(a) => {
                let from = id_to_key(a);
                index_next(&self.db, from.as_slice())?
            },
        };
        match entry {
            None => {
                proof {
                    if let Some(a) = after {
                        lemma_id_key_value(a);
                        assert forall|k: Seq<u8>| #[trigger] m@.contains_key(k) && k.len() == KEY_LEN
                            implies key_value(k) <= a by {
                            if key_value(k) > a {
                                lemma_value_order(id_key(a), k);
                            }
                        }
                    }
                }
                Ok(None)
            },
            Some((k, v)) => {
                let frame = frame_of_entry(k.as_slice(), v.as_slice())?;
                proof {
                    if let Some(a) = after {
                        lemma_id_key_value(a);
                        lemma_key_order(id_key(a), k@);
                    }
                    assert forall|k2: Seq<u8>| #[trigger] m@.contains_key(k2) && k2.len() == KEY_LEN
                        && (after matches Some(a) ==> key_value(k2) > a) implies key_value(k2) >= frame.id by {
                        if key_value(k2) < key_value(k@) {
                            lemma_value_order(k2, k@);
                            if let Some(a) = after {
                                lemma_value_order(id_key(a), k2);
                            }
                        }
                    }
                }
                Ok(Some(frame))
            },
        }
    }

    /// The payload stored under the integrity descriptor `hash`.
    pub fn cat(&self, hash: &str) -> (r: Result<Vec<u8>, StoreError>)
        ensures
            !integrity_parses(hash@) ==> r == Err::<Vec<u8>, StoreError>(StoreError::Parse),
            is_sha256_descriptor(hash@) ==> r != Err::<Vec<u8>, StoreError>(StoreError::Parse),
            is_sha256_descriptor(hash@) ==> (r matches Ok(d) ==> integrity_of(d@) == hash@),
            r matches Err(e) ==> (e == StoreError::Parse || e == StoreError::NotFound || e
                == StoreError::Integrity || e == StoreError::Io),
    {
        match parse_integrity(hash) {
            None => Err(StoreError::Parse),
            Some(sri) => {
                let r = self.cat_integrity(&sri);
                proof {
                    if is_sha256_descriptor(hash@) {
                        assert(sha256_descriptor(hash@.subrange(7, hash@.len() as int)) == hash@);
                    }
                }
                r
            },
        }
    }

    /// The payload stored under `sri`, which must name one hash with a
    /// well-formed digest.
    pub fn cat_integrity(&self, sri: &ssri::Integrity) -> (r: Result<Vec<u8>, StoreError>)
        ensures
            !(sri.hashes@.len() == 1 && base64_ok(sri.hashes@[0].digest@)) ==> r == Err::<
                Vec<u8>,
                StoreError,
            >(StoreError::Parse),
            r matches Ok(d) ==> (sri.hashes@[0].algorithm == ssri::Algorithm::Sha256
                ==> sha256_descriptor(sri.hashes@[0].digest@) == integrity_of(d@)),
            (sri.hashes@.len() == 1 && base64_ok(sri.hashes@[0].digest@)) ==> r != Err::<
                Vec<u8>,
                StoreError,
            >(StoreError::Parse),
            r matches Err(e) ==> (e == StoreError::Parse || e == StoreError::NotFound || e
                == StoreError::Integrity || e == StoreError::Io),
    {
        if !integrity_usable(sri) {
            return Err(StoreError::Parse);
        }
        cas_read(self.cache_path.as_str(), sri)
    }
}

} // verus!
