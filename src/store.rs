//! The index of a log and its upkeep: replay from the start of the log,
//! insertion of new records, and point lookups.

use crate::codec::{
    decode_error, decoded_key, decoded_value, encode, frame_bytes, process_record,
    stored_frame_len, RecordError,
};
use vstd::prelude::*;
use vstd::slice::slice_to_vec;

verus! {

/// The log bytes from `pos` on; nothing where `pos` lies past the end.
pub open spec fn record_at(log: Seq<u8>, pos: nat) -> Seq<u8> {
    if pos <= log.len() {
        log.skip(pos as int)
    } else {
        Seq::empty()
    }
}

/// What a replay of `rest`, which starts at offset `base` of the log, makes
/// of `index` after `count` records: the index, the failure that stopped it
/// (`None` at the end of the log), the offset where it stopped and the number
/// of records read.
pub open spec fn replay(rest: Seq<u8>, base: nat, count: nat, index: Map<Seq<u8>, nat>) -> (
    Map<Seq<u8>, nat>,
    Option<RecordError>,
    nat,
    nat,
)
    decreases rest.len(),
{
    match decode_error(rest) {
        Some(RecordError::EndOfLog) => (index, None, base, count),
        Some(e) => (index, Some(e), base, count),
        None => if 0 < stored_frame_len(rest) <= rest.len() {
            let n = stored_frame_len(rest);
            replay(rest.skip(n as int), base + n, count + 1, index.insert(decoded_key(rest), base))
        } else {
            (index, None, base, count)
        },
    }
}

/// A replay of the whole log into `index`.
pub open spec fn replay_log(log: Seq<u8>, index: Map<Seq<u8>, nat>) -> (
    Map<Seq<u8>, nat>,
    Option<RecordError>,
    nat,
    nat,
) {
    replay(log, 0, 0, index)
}

/// Why `load` stopped before the end of the log.
#[derive(Clone, Copy, Debug, PartialEq, Eq, Structural)]
pub struct LoadError {
    /// `Truncated` or `Corrupt`.
    pub cause: RecordError,
    /// The offset of the record that could not be read.
    pub offset: usize,
    /// How many records were indexed before it.
    pub records: usize,
}

/// The index of a log: for each key, the offset of its latest record.
pub struct KVStore {
    entries: Vec<(Vec<u8>, u64)>,
    index: Ghost<Map<Seq<u8>, nat>>,
}

impl View for KVStore {
    type V = Map<Seq<u8>, nat>;

    closed spec fn view(&self) -> Map<Seq<u8>, nat> {
        self.index@
    }
}

impl KVStore {
    /// Each key stands in one entry, and the entries are the index.
    pub closed spec fn wf(&self) -> bool {
        &&& forall|i: int, j: int|
            0 <= i < j < self.entries@.len() ==> self.entries@[i].0@ != self.entries@[j].0@
        &&& forall|i: int|
            0 <= i < self.entries@.len() ==> {
                &&& #[trigger] self.index@.contains_key(self.entries@[i].0@)
                &&& self.index@[self.entries@[i].0@] == self.entries@[i].1 as nat
            }
        &&& forall|k: Seq<u8>|
            #[trigger] self.index@.contains_key(k) ==> exists|i: int|
                0 <= i < self.entries@.len() && self.entries@[i].0@ == k
    }

    /// A store whose log has not been replayed yet: the index is empty.
    pub fn new() -> (r: KVStore)
        ensures
            r.wf(),
            r@ == Map::<Seq<u8>, nat>::empty(),
    {
        KVStore { entries: Vec::new(), index: Ghost(Map::empty()) }
    }

    /// The number of keys in the index.
    pub fn len(&self) -> (r: usize)
        requires
            self.wf(),
        ensures
            r == self@.len(),
    {
        proof {
            self.lemma_len();
        }
        self.entries.len()
    }

    proof fn lemma_len(&self)
        requires
            self.wf(),
        ensures
            self@.len() == self.entries@.len(),
    {
        let keys = Seq::new(self.entries@.len(), |i: int| self.entries@[i].0@);
        assert forall|i: int, j: int| 0 <= i < j < keys.len() implies keys[i] != keys[j] by {}
        keys.unique_seq_to_set();
        assert(keys.to_set() =~= self@.dom()) by {
            assert forall|k: Seq<u8>| self@.dom().contains(k) implies keys.to_set().contains(k) by {
                let i = choose|i: int| 0 <= i < self.entries@.len() && self.entries@[i].0@ == k;
                assert(keys[i] == k);
            }
            assert forall|k: Seq<u8>| keys.to_set().contains(k) implies self@.dom().contains(k) by {
                let i = choose|i: int| 0 <= i < keys.len() && keys[i] == k;
                assert(self.index@.contains_key(self.entries@[i].0@));
            }
        }
    }

    /// Where in `entries` the key stands.
    fn find(&self, key: &[u8]) -> (r: Option<usize>)
        requires
            self.wf(),
        ensures
            match r {
                Some(i) => i < self.entries@.len() && self.entries@[i as int].0@ == key@,
                None => !self@.contains_key(key@),
            },
    {
        let mut i: usize = 0;
        while i < self.entries.len()
            invariant
                self.wf(),
                i <= self.entries@.len(),
                forall|j: int| 0 <= j < i ==> self.entries@[j].0@ != key@,
            decreases self.entries@.len() - i,
        {
            if bytes_eq(self.entries[i].0.as_slice(), key) {
                return Some(i);
            }
            i = i + 1;
        }
        None
    }

    /// The offset of the latest record of `key`, if it has one.
    pub fn position(&self, key: &[u8]) -> (r: Option<u64>)
        requires
            self.wf(),
        ensures
            match r {
                Some(p) => self@.contains_key(key@) && self@[key@] == p as nat,
                None => !self@.contains_key(key@),
            },
    {
        match self.find(key) {
            Some(i) => {
                proof {
                    assert(self.index@.contains_key(self.entries@[i as int].0@));
                }
                Some(self.entries[i].1)
            },
            None => None,
        }
    }

    /// Makes `pos` the offset of the latest record of `key`.
    fn set_position(&mut self, key: &[u8], pos: u64)
        requires
            old(self).wf(),
        ensures
            final(self).wf(),
            final(self)@ == old(self)@.insert(key@, pos as nat),
    {
        let k = slice_to_vec(key);
        let ghost at: int;
        match self.find(key) {
            Some(i) => {
                self.entries.set(i, (k, pos));
                proof {
                    at = i as int;
                }
            },
            None => {
                self.entries.push((k, pos));
                proof {
                    at = self.entries@.len() - 1;
                }
            },
        }
        self.index = Ghost(self.index@.insert(key@, pos as nat));
        assert(self.entries@[at].0@ == key@);
        assert forall|i: int| 0 <= i < self.entries@.len() && i != at implies self.entries@[i]
            == old(self).entries@[i] && #[trigger] self.entries@[i].0@ != key@ by {
            if !old(self)@.contains_key(key@) {
                assert(old(self).index@.contains_key(old(self).entries@[i].0@));
            }
        }
        assert forall|k: Seq<u8>| #[trigger] self.index@.contains_key(k) implies exists|i: int|
            0 <= i < self.entries@.len() && self.entries@[i].0@ == k by {
            if k != key@ {
                let i = choose|i: int|
                    0 <= i < old(self).entries@.len() && old(self).entries@[i].0@ == k;
                assert(i != at);
                assert(self.entries@[i].0@ == k);
            }
        }
        assert forall|i: int| 0 <= i < self.entries@.len() implies {
            &&& #[trigger] self.index@.contains_key(self.entries@[i].0@)
            &&& self.index@[self.entries@[i].0@] == self.entries@[i].1 as nat
        } by {
            if i != at {
                assert(old(self).index@.contains_key(old(self).entries@[i].0@));
            }
        }
    }

    /// Replays `log`, the whole content of the file from offset 0, record by
    /// record, making each record's offset the position of its key. Stops
    /// with success at the end of the log, and with the failure of the first
    /// record that is truncated or corrupt; the index then holds every record
    /// read before it.
    pub fn load(&mut self, log: &[u8]) -> (r: Result<(), LoadError>)
        requires
            old(self).wf(),
        ensures
            final(self).wf(),
            ({
                let (index, failure, at, count) = replay_log(log@, old(self)@);
                &&& final(self)@ == index
                &&& match r {
                    Ok(()) => failure is None,
                    Err(e) => failure == Some(e.cause) && e.offset == at && e.records == count,
                }
            }),
    {
        let mut pos: usize = 0;
        let mut count: usize = 0;
        let len = log.len();
        assert(log@.skip(0) =~= log@);
        loop
            invariant
                self.wf(),
                pos <= log@.len(),
                len == log@.len(),
                count <= pos,
                replay(log@.skip(pos as int), pos as nat, count as nat, self@) == replay_log(
                    log@,
                    old(self)@,
                ),
            decreases log@.len() - pos,
        {
            match process_record(log, pos) {
                Ok((kv, n)) => {
                    let ghost rest = log@.skip(pos as int);
                    assert(rest.len() == log@.len() - pos);
                    assert(rest.skip(n as int) =~= log@.skip(pos + n));
                    self.set_position(kv.key.as_slice(), pos as u64);
                    pos = pos + n;
                    count = count + 1;
                },
                Err(RecordError::EndOfLog) => {
                    return Ok(());
                },
                Err(e) => {
                    return Err(LoadError { cause: e, offset: pos, records: count });
                },
            }
        }
    }

    /// Makes `end`, the offset at which the caller appends the returned
    /// record, the position of `key`, and returns the record for `key` and
    /// `value`.
    pub fn insert(&mut self, key: &[u8], value: &[u8], end: u64) -> (r: Vec<u8>)
        requires
            old(self).wf(),
            key@.len() <= u32::MAX,
            value@.len() <= u32::MAX,
        ensures
            final(self).wf(),
            final(self)@ == old(self)@.insert(key@, end as nat),
            r@ == frame_bytes(key@, value@),
    {
        let frame = encode(key, value);
        self.set_position(key, end);
        frame
    }

    /// The same as `insert`: a later record overrides an earlier one.
    pub fn update(&mut self, key: &[u8], value: &[u8], end: u64) -> (r: Vec<u8>)
        requires
            old(self).wf(),
            key@.len() <= u32::MAX,
            value@.len() <= u32::MAX,
        ensures
            final(self).wf(),
            final(self)@ == old(self)@.insert(key@, end as nat),
            r@ == frame_bytes(key@, value@),
    {
        self.insert(key, value, end)
    }

    /// Inserts `key` with an empty value, the tombstone of a deleted key:
    /// the key stays in the index, with an empty value.
    pub fn delete(&mut self, key: &[u8], end: u64) -> (r: Vec<u8>)
        requires
            old(self).wf(),
            key@.len() <= u32::MAX,
        ensures
            final(self).wf(),
            final(self)@ == old(self)@.insert(key@, end as nat),
            r@ == frame_bytes(key@, Seq::empty()),
    {
        let empty: [u8; 0] = [];
        self.insert(key, empty.as_slice(), end)
    }

    /// The value of the latest record of `key` in `log`, the whole content
    /// of the file; `None` where the key has no record.
    pub fn get(&self, key: &[u8], log: &[u8]) -> (r: Result<Option<Vec<u8>>, RecordError>)
        requires
            self.wf(),
        ensures
            !self@.contains_key(key@) ==> r == Ok::<Option<Vec<u8>>, RecordError>(None),
            self@.contains_key(key@) ==> {
                let d = record_at(log@, self@[key@]);
                match r {
                    Ok(Some(v)) => decode_error(d) is None && v@ == decoded_value(d),
                    Ok(None) => false,
                    Err(e) => decode_error(d) == Some(e),
                }
            },
    {
        let pos = match self.position(key) {
            None => return Ok(None),
            Some(p) => p,
        };
        if pos >= log.len() as u64 {
            assert(record_at(log@, pos as nat) =~= Seq::<u8>::empty());
            return Err(RecordError::EndOfLog);
        }
        match process_record(log, pos as usize) {
            Ok((kv, _)) => Ok(Some(kv.value)),
            Err(e) => Err(e),
        }
    }
}

/// Whether two byte strings are equal.
fn bytes_eq(a: &[u8], b: &[u8]) -> (r: bool)
    ensures
        r == (a@ == b@),
{
    if a.len() != b.len() {
        return false;
    }
    let mut i: usize = 0;
    while i < a.len()
        invariant
            a@.len() == b@.len(),
            i <= a@.len(),
            forall|j: int| 0 <= j < i ==> a@[j] == b@[j],
        decreases a@.len() - i,
    {
        if a[i] != b[i] {
            return false;
        }
        i = i + 1;
    }
    assert(a@ =~= b@);
    true
}

} // verus!
