//! The state of a store as a mathematical value, and what each step of an
//! operation makes of it.

use crate::command::CommandView;
use crate::command::decode_at;
use crate::command::lemma_decode_encoded;
use crate::command::lemma_decode_same_bytes;
use crate::command::lemma_decoded_bytes;
use crate::error::KvsError;
use crate::generation::LogFileType;
use crate::index::LogEntry;
use crate::index::index_after_set;
use crate::index::wasted_by_set;
use crate::logdir::Files;
use crate::replay::Replayed;
use crate::replay::add_waste;
use crate::replay::entry_for;
use crate::replay::entry_matches;
use crate::replay::lemma_replay_appended;
use crate::replay::lemma_replay_from_appended;
use crate::replay::replay_from;
use crate::replay::value_at;
use crate::replay::whole_records;
use vstd::prelude::*;

verus! {

/// The count of wasted bytes at which a write is followed by a compaction.
pub const COMPACTION_BYTES_THRESHOLD: usize = 1024 * 1024;

/// Whether `entry` can be read: the generation has a reader, the reader's
/// file is in the directory, and the file holds at the entry's place a
/// `SetValue` record of `key`.
pub open spec fn entry_readable(
    files: Files,
    readers: Map<u64, LogFileType>,
    key: Seq<char>,
    entry: LogEntry,
) -> bool {
    &&& readers.contains_key(entry.generation)
    &&& files.contains_key((entry.generation, readers[entry.generation]))
    &&& entry_matches(files[(entry.generation, readers[entry.generation])], key, entry)
}

/// The value that reading `entry` gives.
pub open spec fn entry_value(files: Files, readers: Map<u64, LogFileType>, entry: LogEntry) -> Seq<
    char,
> {
    value_at(files[(entry.generation, readers[entry.generation])], entry)
}

/// The state of a store.
pub struct StoreState {
    /// The files of the directory.
    pub files: Files,
    /// For each live key, the place of its latest record.
    pub index: Map<Seq<char>, LogEntry>,
    /// The generation whose log receives the writes.
    pub generation: u64,
    /// For each generation that has a reader, the kind of file that the
    /// reader is open on.
    pub readers: Map<u64, LogFileType>,
    /// The bytes of the records that later records have superseded.
    pub wasted: usize,
}

impl StoreState {
    /// The index and the readers fit the directory: the active generation
    /// has a log and no log or reader is newer, every reader's file exists,
    /// and every entry of the index can be read and is no newer than the
    /// active generation.
    pub open spec fn consistent(self) -> bool {
        &&& self.index.dom().finite()
        &&& self.files.contains_key((self.generation, LogFileType::Blessed))
        &&& forall|g: u64| #[trigger]
            self.files.contains_key((g, LogFileType::Blessed)) ==> g <= self.generation
        &&& forall|g: u64| #[trigger]
            self.readers.contains_key(g) ==> g <= self.generation && self.files.contains_key(
                (g, self.readers[g]),
            )
        &&& forall|key: Seq<char>| #[trigger]
            self.index.contains_key(key) ==> entry_readable(
                self.files,
                self.readers,
                key,
                self.index[key],
            ) && self.index[key].generation <= self.generation
    }

    /// The state is sound: it is consistent and every log has a reader on
    /// it.
    pub open spec fn wf(self) -> bool {
        &&& self.consistent()
        &&& forall|g: u64| #[trigger]
            self.files.contains_key((g, LogFileType::Blessed)) ==> self.readers.contains_key(g)
                && self.readers[g] == LogFileType::Blessed
    }

    /// The contents of the store: for each live key, the value that reading
    /// its entry gives.
    pub open spec fn contents(self) -> Map<Seq<char>, Seq<char>> {
        Map::new(
            |key: Seq<char>| self.index.contains_key(key),
            |key: Seq<char>| entry_value(self.files, self.readers, self.index[key]),
        )
    }

    /// The log of the active generation.
    pub open spec fn active_log(self) -> Seq<u8> {
        self.files[(self.generation, LogFileType::Blessed)]
    }

    /// The state after `command` was written at the end of the active log.
    pub open spec fn with_appended(self, command: CommandView) -> StoreState {
        StoreState {
            files: self.files.insert(
                (self.generation, LogFileType::Blessed),
                self.active_log() + command.encoding(),
            ),
            ..self
        }
    }

    /// The state after a `SetValue` record of `key` and `value` was written
    /// to the active log and entered in the index.
    pub open spec fn with_set(self, key: Seq<char>, value: Seq<char>) -> StoreState {
        let command = CommandView::SetValue { key, value };
        StoreState {
            index: index_after_set(
                self.index,
                key,
                entry_for(command, self.generation, self.active_log().len()),
            ),
            wasted: add_waste(self.wasted, wasted_by_set(self.index, key, self.generation)),
            ..self.with_appended(command)
        }
    }

    /// The state after a `Remove` record of `key` was written to the active
    /// log and the key's entry was deleted from the index.
    pub open spec fn with_remove(self, key: Seq<char>) -> StoreState {
        StoreState {
            index: self.index.remove(key),
            wasted: add_waste(self.wasted, self.index[key].estimated_bytes),
            ..self.with_appended(CommandView::Remove { key })
        }
    }
}

/// An entry stays readable, with the same value, when bytes are written
/// behind the log it points into.
pub proof fn lemma_append_keeps_entry(bytes: Seq<u8>, more: Seq<u8>, key: Seq<char>, entry: LogEntry)
    requires
        entry_matches(bytes, key, entry),
    ensures
        entry_matches(bytes + more, key, entry),
        value_at(bytes + more, entry) == value_at(bytes, entry),
{
    let pos = entry.file_pos as int;
    lemma_decoded_bytes(bytes, pos);
    let next = decode_at(bytes, pos)->next;
    assert((bytes + more).subrange(pos, next) =~= bytes.subrange(pos, next));
    lemma_decode_same_bytes(bytes, bytes + more, pos);
}

/// Writing a record to the active log keeps every entry readable and every
/// value as it was.
pub proof fn lemma_append_keeps_wf(s: StoreState, command: CommandView)
    requires
        s.wf(),
    ensures
        s.with_appended(command).wf(),
        s.with_appended(command).contents() == s.contents(),
{
    let t = s.with_appended(command);
    assert forall|key: Seq<char>| #[trigger] t.index.contains_key(key) implies entry_readable(
        t.files,
        t.readers,
        key,
        t.index[key],
    ) && entry_value(t.files, t.readers, t.index[key]) == entry_value(
        s.files,
        s.readers,
        s.index[key],
    ) by {
        let entry = s.index[key];
        assert(entry_readable(s.files, s.readers, key, entry));
        if (entry.generation, s.readers[entry.generation]) == (
            s.generation,
            LogFileType::Blessed,
        ) {
            lemma_append_keeps_entry(s.active_log(), command.encoding(), key, entry);
        }
    }
    assert(t.contents() =~= s.contents());
}

/// A `set` keeps the store sound and makes `value` the value of `key`.
pub proof fn lemma_set_keeps_wf(s: StoreState, key: Seq<char>, value: Seq<char>)
    requires
        s.wf(),
        (CommandView::SetValue { key, value }).encodable(),
        s.active_log().len() <= u64::MAX,
        (CommandView::SetValue { key, value }).estimated_bytes() <= usize::MAX,
    ensures
        s.with_set(key, value).wf(),
        s.with_set(key, value).contents() == s.contents().insert(key, value),
        s.with_set(key, value).index == s.index.insert(
            key,
            entry_for(CommandView::SetValue { key, value }, s.generation, s.active_log().len()),
        ),
{
    let command = CommandView::SetValue { key, value };
    let a = s.with_appended(command);
    let t = s.with_set(key, value);
    lemma_append_keeps_wf(s, command);
    lemma_decode_encoded(s.active_log(), command, Seq::empty());
    assert(s.active_log() + command.encoding() + Seq::<u8>::empty() =~= a.active_log());
    if s.index.contains_key(key) {
        assert(s.index[key].generation <= s.generation);
    }
    assert forall|k: Seq<char>| #[trigger] t.index.contains_key(k) implies entry_readable(
        t.files,
        t.readers,
        k,
        t.index[k],
    ) && t.index[k].generation <= t.generation by {
        if k != key {
            assert(a.index.contains_key(k));
        }
    }
    assert(t.contents() =~= s.contents().insert(key, value)) by {
        assert forall|k: Seq<char>| #[trigger] t.contents().contains_key(k) implies t.contents()[k]
            == s.contents().insert(key, value)[k] by {
            if k != key {
                assert(a.contents()[k] == s.contents()[k]);
            }
        }
    }
}

/// A `remove` of a live key keeps the store sound and takes the key out.
pub proof fn lemma_remove_keeps_wf(s: StoreState, key: Seq<char>)
    requires
        s.wf(),
        s.index.contains_key(key),
    ensures
        s.with_remove(key).wf(),
        s.with_remove(key).contents() == s.contents().remove(key),
{
    let command = CommandView::Remove { key };
    let a = s.with_appended(command);
    let t = s.with_remove(key);
    lemma_append_keeps_wf(s, command);
    assert forall|k: Seq<char>| #[trigger] t.index.contains_key(k) implies entry_readable(
        t.files,
        t.readers,
        k,
        t.index[k],
    ) && t.index[k].generation <= t.generation by {
        assert(a.index.contains_key(k));
    }
    assert(t.contents() =~= s.contents().remove(key)) by {
        assert forall|k: Seq<char>| #[trigger] t.contents().contains_key(k) implies t.contents()[k]
            == s.contents().remove(key)[k] by {
            assert(a.contents()[k] == s.contents()[k]);
        }
    }
}


/// Whether `files` holds logs only, each of which consists of whole records.
pub open spec fn whole_logs(files: Files) -> bool {
    &&& forall|g: u64| !(#[trigger] files.contains_key((g, LogFileType::Temporary)))
    &&& forall|g: u64| #[trigger]
        files.contains_key((g, LogFileType::Blessed)) ==> whole_records(
            files[(g, LogFileType::Blessed)],
            0,
        )
}

impl StoreState {
    /// The directory holds the store whole: it has no temporary file, every
    /// log consists of whole records, and reading the logs rebuilds exactly
    /// the index and the count of wasted bytes of this state.
    ///
    /// A store that was opened on such a directory is durable, and stays so.
    pub open spec fn durable(self) -> bool {
        &&& whole_logs(self.files)
        &&& replay_from(self.files, 0, self.generation as nat, Replayed::empty()) == Ok::<
            Replayed,
            KvsError,
        >(Replayed { index: self.index, wasted: self.wasted })
    }
}

/// A `set` keeps a durable store durable.
pub proof fn lemma_set_keeps_durable(s: StoreState, key: Seq<char>, value: Seq<char>)
    requires
        s.wf(),
        s.durable(),
        (CommandView::SetValue { key, value }).encodable(),
    ensures
        s.with_set(key, value).durable(),
{
    let command = CommandView::SetValue { key, value };
    let t = s.with_set(key, value);
    lemma_replay_from_appended(s.files, 0, s.generation as nat, Replayed::empty(), command);
    lemma_replay_appended(s.active_log(), s.generation, 0, Replayed::empty(), command);
    assert forall|g: u64| #[trigger]
        t.files.contains_key((g, LogFileType::Blessed)) implies whole_records(
        t.files[(g, LogFileType::Blessed)],
        0,
    ) by {
        if g != s.generation {
            assert(s.files.contains_key((g, LogFileType::Blessed)));
        }
    }
    assert forall|g: u64| !(#[trigger] t.files.contains_key((g, LogFileType::Temporary))) by {
        assert(!s.files.contains_key((g, LogFileType::Temporary)));
    }
}

/// A `remove` of a live key keeps a durable store durable.
pub proof fn lemma_remove_keeps_durable(s: StoreState, key: Seq<char>)
    requires
        s.wf(),
        s.durable(),
        s.index.contains_key(key),
        (CommandView::Remove { key }).encodable(),
    ensures
        s.with_remove(key).durable(),
{
    let command = CommandView::Remove { key };
    let t = s.with_remove(key);
    lemma_replay_from_appended(s.files, 0, s.generation as nat, Replayed::empty(), command);
    lemma_replay_appended(s.active_log(), s.generation, 0, Replayed::empty(), command);
    assert forall|g: u64| #[trigger]
        t.files.contains_key((g, LogFileType::Blessed)) implies whole_records(
        t.files[(g, LogFileType::Blessed)],
        0,
    ) by {
        if g != s.generation {
            assert(s.files.contains_key((g, LogFileType::Blessed)));
        }
    }
    assert forall|g: u64| !(#[trigger] t.files.contains_key((g, LogFileType::Temporary))) by {
        assert(!s.files.contains_key((g, LogFileType::Temporary)));
    }
}

} // verus!
