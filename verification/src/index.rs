//! The in-memory index: for each live key, where its latest record lies.

use crate::error::KvsError;
use vstd::hash_map::StringHashMap;
use vstd::prelude::*;

verus! {

/// Where the latest `SetValue` record of a key lies.
#[derive(Debug, Clone, Copy, PartialEq, Eq, Structural)]
pub struct LogEntry {
    /// The generation whose log holds the record.
    pub generation: u64,
    /// The offset in that log at which the record starts.
    pub file_pos: u64,
    /// The bytes of key and value together: what the record will count for
    /// once it is superseded.
    pub estimated_bytes: usize,
}

/// The index after `entry` was offered for `key`.
///
/// An entry of a strictly greater generation is never replaced: a record
/// that is rewritten from an old generation must not win over one that has
/// landed in a newer generation meanwhile.
pub open spec fn index_after_set(
    index: Map<Seq<char>, LogEntry>,
    key: Seq<char>,
    entry: LogEntry,
) -> Map<Seq<char>, LogEntry> {
    if index.contains_key(key) && index[key].generation > entry.generation {
        index
    } else {
        index.insert(key, entry)
    }
}

/// The bytes that become waste when an entry of `generation` is offered for
/// `key`: those of the entry it replaces.
pub open spec fn wasted_by_set(
    index: Map<Seq<char>, LogEntry>,
    key: Seq<char>,
    generation: u64,
) -> usize {
    if index.contains_key(key) && index[key].generation <= generation {
        index[key].estimated_bytes
    } else {
        0
    }
}

/// The mapping from keys to the places of their latest records.
pub struct InternalMap {
    map: StringHashMap<LogEntry>,
}

impl View for InternalMap {
    type V = Map<Seq<char>, LogEntry>;

    closed spec fn view(&self) -> Map<Seq<char>, LogEntry> {
        self.map@
    }
}

impl InternalMap {
    /// An index without keys.
    pub fn new() -> (index: Self)
        ensures
            index@ == Map::<Seq<char>, LogEntry>::empty(),
    {
        Self { map: StringHashMap::new() }
    }

    /// Offers a new entry for `key` and returns the bytes that it turns to
    /// waste.
    ///
    /// Where the key is absent the entry is inserted and nothing is wasted.
    /// Where the key is present with an older or equal generation the entry
    /// replaces the old one, whose bytes are returned. Where the key is
    /// present with a strictly greater generation nothing changes.
    pub fn set(&mut self, key: &str, generation: u64, file_pos: u64, estimated_bytes: usize) -> (r:
        Result<usize, KvsError>)
        ensures
            r == Ok::<usize, KvsError>(wasted_by_set(old(self)@, key@, generation)),
            final(self)@ == index_after_set(
                old(self)@,
                key@,
                LogEntry { generation, file_pos, estimated_bytes },
            ),
    {
        let mut wasted_bytes: usize = 0;
        match self.map.get(key) {
            Some(entry) => {
                if entry.generation > generation {
                    return Ok(0);
                }
                wasted_bytes = entry.estimated_bytes;
            },
            None => {},
        }
        self.map.insert(key.to_owned(), LogEntry { generation, file_pos, estimated_bytes });
        Ok(wasted_bytes)
    }

    /// The entry of `key`, if it has one.
    pub fn get(&self, key: &str) -> (r: Result<Option<LogEntry>, KvsError>)
        ensures
            r == Ok::<Option<LogEntry>, KvsError>(
                if self@.contains_key(key@) {
                    Some(self@[key@])
                } else {
                    None
                },
            ),
    {
        match self.map.get(key) {
            Some(entry) => Ok(Some(*entry)),
            None => Ok(None),
        }
    }

    /// Deletes the entry of `key` and returns its bytes, which are now waste.
    /// Fails with [`KvsError::KeyNotFound`] where the key has no entry.
    pub fn remove(&mut self, key: &str) -> (r: Result<usize, KvsError>)
        ensures
            old(self)@.contains_key(key@) ==> r == Ok::<usize, KvsError>(
                old(self)@[key@].estimated_bytes,
            ) && final(self)@ == old(self)@.remove(key@),
            !old(self)@.contains_key(key@) ==> r == Err::<usize, KvsError>(KvsError::KeyNotFound)
                && final(self)@ == old(self)@,
    {
        let wasted_bytes = match self.map.get(key) {
            Some(entry) => entry.estimated_bytes,
            None => { return Err(KvsError::KeyNotFound); },
        };
        self.map.remove(key);
        Ok(wasted_bytes)
    }

    /// The number of keys in the index.
    pub fn len(&self) -> (n: usize)
        ensures
            n == self@.len(),
    {
        self.map.len()
    }
}

} // verus!
