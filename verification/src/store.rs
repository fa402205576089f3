//! The store engine: opening a directory, and `set`, `get` and `remove`.

use crate::command::Command;
use crate::command::CommandView;
use crate::command::DecodeError;
use crate::command::lemma_decoded_bytes;
use crate::compaction::Rewritten;
use crate::compaction::compaction_ops;
use crate::compaction::compaction_result;
use crate::compaction::lemma_blessed;
use crate::compaction::lemma_compaction_keeps_durable;
use crate::compaction::lemma_next_log;
use crate::compaction::lemma_next_retire;
use crate::compaction::lemma_next_rewrite;
use crate::compaction::lemma_prepared;
use crate::compaction::lemma_retire_step;
use crate::compaction::lemma_retired_all;
use crate::compaction::lemma_rewrite_moves_key;
use crate::compaction::lemma_rewrite_skips_key;
use crate::compaction::listed_before;
use crate::compaction::reached;
use crate::compaction::read_from;
use crate::compaction::retire_ops;
use crate::compaction::retiring;
use crate::compaction::rewrite_from;
use crate::compaction::rewrite_log;
use crate::compaction::rewrite_set;
use crate::compaction::rewriting_exactly;
use crate::error::CompactionCause;
use crate::error::KvsError;
use crate::generation::LogFileType;
use crate::index::InternalMap;
use crate::logdir::FileOp;
use crate::logdir::FileOpView;
use crate::logdir::Files;
use crate::logdir::LogDir;
use crate::logdir::apply_ops;
use crate::logdir::lists_logs;
use crate::logdir::strictly_ascending;
use crate::logdir::views;
use crate::replay::Replayed;
use crate::replay::apply_record;
use crate::replay::byte_len;
use crate::replay::entry_matches;
use crate::replay::replay_from;
use crate::replay::replay_generation;
use crate::replay::replay_log;
use crate::state::COMPACTION_BYTES_THRESHOLD;
use crate::state::StoreState;
use crate::state::entry_readable;
use crate::state::lemma_remove_keeps_durable;
use crate::state::lemma_remove_keeps_wf;
use crate::state::lemma_set_keeps_durable;
use crate::state::lemma_set_keeps_wf;
use crate::state::whole_logs;
use std::collections::HashMap;
use vstd::hash_set::StringHashSet;
use vstd::prelude::*;
use vstd::std_specs::hash::*;

verus! {

broadcast use group_hash_axioms;

/// Whether `files` holds a log at all.
pub open spec fn has_logs(files: Files) -> bool {
    exists|g: u64| files.contains_key((g, LogFileType::Blessed))
}

/// Whether `top` is the greatest generation that has a log in `files`.
pub open spec fn is_top(files: Files, top: u64) -> bool {
    &&& files.contains_key((top, LogFileType::Blessed))
    &&& forall|g: u64| #[trigger] files.contains_key((g, LogFileType::Blessed)) ==> g <= top
}

/// The files of a directory once a store is open on it: as they were, but
/// with an empty log of generation 1 where there was no log.
pub open spec fn opened_files(files: Files) -> Files {
    if has_logs(files) {
        files
    } else {
        files.insert((1, LogFileType::Blessed), Seq::empty())
    }
}

/// The generation that a store opened on `files` writes to: the greatest
/// that has a log, and 1 where there is none.
pub open spec fn opened_generation(files: Files) -> u64 {
    choose|top: u64| is_top(opened_files(files), top)
}

/// Among the generations up to `bound` that have a log there is a greatest,
/// if there is one at all.
proof fn lemma_greatest_log(files: Files, bound: u64) -> (top: u64)
    requires
        exists|g: u64| g <= bound && files.contains_key((g, LogFileType::Blessed)),
    ensures
        top <= bound,
        files.contains_key((top, LogFileType::Blessed)),
        forall|g: u64| g <= bound && #[trigger] files.contains_key((g, LogFileType::Blessed)) ==> g
            <= top,
    decreases bound,
{
    if files.contains_key((bound, LogFileType::Blessed)) {
        bound
    } else {
        let g = choose|g: u64| g <= bound && files.contains_key((g, LogFileType::Blessed));
        assert(g <= bound - 1);
        lemma_greatest_log(files, (bound - 1) as u64)
    }
}

/// The generation that a store opened on `files` writes to is the greatest
/// that has a log once the store is open.
pub proof fn lemma_opened_generation(files: Files)
    ensures
        is_top(opened_files(files), opened_generation(files)),
{
    if has_logs(files) {
        let g = choose|g: u64| files.contains_key((g, LogFileType::Blessed));
        assert(g <= u64::MAX && files.contains_key((g, LogFileType::Blessed)));
        let top = lemma_greatest_log(files, u64::MAX);
        assert(is_top(files, top));
    } else {
        assert(is_top(opened_files(files), 1));
    }
}

/// What opening a store on `files` rebuilds: the outcome of reading every
/// log in ascending order of generation.
pub open spec fn opened_state(files: Files) -> Result<Replayed, KvsError> {
    replay_from(opened_files(files), 0, opened_generation(files) as nat, Replayed::empty())
}

/// The state of a store that was just opened on `files`, where the logs
/// could be read.
pub open spec fn opened_store(files: Files) -> StoreState {
    StoreState {
        files: opened_files(files),
        index: opened_state(files)->Ok_0.index,
        generation: opened_generation(files),
        readers: opened_readers(files),
        wasted: opened_state(files)->Ok_0.wasted,
    }
}

/// The readers of a store that was just opened on `files`: one on each log.
pub open spec fn opened_readers(files: Files) -> Map<u64, LogFileType> {
    Map::new(
        |g: u64| opened_files(files).contains_key((g, LogFileType::Blessed)),
        |g: u64| LogFileType::Blessed,
    )
}

/// A key-value store of strings, kept in the logs of a directory.
pub struct KvStore {
    /// The image of the directory that holds the logs.
    dir: LogDir,
    /// For each live key, the place of its latest record.
    map: InternalMap,
    /// The generation whose log receives the writes.
    current_generation: u64,
    /// For each generation that can be read, the file that its reader is
    /// open on.
    readers: HashMap<u64, LogFileType>,
    /// The bytes of the records that later records have superseded.
    wasted_bytes: usize,
}

impl View for KvStore {
    type V = Map<Seq<char>, Seq<char>>;

    /// The contents of the store: for each live key, its value.
    open spec fn view(&self) -> Map<Seq<char>, Seq<char>> {
        self.state().contents()
    }
}

impl KvStore {
    /// The state of the store as a mathematical value.
    pub closed spec fn state(&self) -> StoreState {
        StoreState {
            files: self.dir@,
            index: self.map@,
            generation: self.current_generation,
            readers: self.readers@,
            wasted: self.wasted_bytes,
        }
    }

    /// The changes to the directory that were not taken yet.
    pub closed spec fn journal(&self) -> Seq<FileOpView> {
        self.dir.pending()
    }

    /// The directory as it stood when the journal was last taken.
    pub closed spec fn synced(&self) -> Files {
        self.dir.synced()
    }

    /// The image of the directory is sound.
    pub closed spec fn dir_wf(&self) -> bool {
        self.dir.wf()
    }

    /// The store is sound: the image of the directory is, and the index and
    /// the readers fit it.
    pub open spec fn wf(&self) -> bool {
        &&& self.dir_wf()
        &&& self.state().wf()
    }

    /// Opens a store on the directory `dir`.
    ///
    /// Where the directory holds no log, the log of generation 1 is made,
    /// empty. The greatest generation that has a log becomes the active one.
    /// Then every log is read, in ascending order of generation, to rebuild
    /// the index and the count of wasted bytes; a reader is kept on each.
    ///
    /// A record that the end of a log cuts short ends the reading of that log
    /// without error. The call fails with [`KvsError::Codec`] where a record
    /// cannot be decoded, and with [`KvsError::KeyNotFound`] where a `Remove`
    /// record names a key that has no entry.
    pub fn open(dir: LogDir) -> (r: Result<KvStore, KvsError>)
        requires
            dir.wf(),
        ensures
            match opened_state(dir@) {
                Ok(st) => r matches Ok(store) && store.wf() && store.state() == opened_store(
                    dir@,
                ) && store.journal() == (if has_logs(dir@) {
                    dir.pending()
                } else {
                    dir.pending().push(
                        FileOpView::Create { generation: 1, kind: LogFileType::Blessed },
                    )
                }) && store.synced() == dir.synced() && (whole_logs(dir@)
                    ==> store.state().durable()),
                Err(e) => r matches Err(x) && x == e,
            },
    {
        let ghost files0 = dir@;
        let ghost files1 = opened_files(dir@);
        let gen_list = dir.generations();
        let mut image = dir;
        let mut readers: HashMap<u64, LogFileType> = HashMap::new();
        let current_generation: u64;
        if gen_list.len() == 0 {
            proof {
                assert forall|g: u64| !files0.contains_key((g, LogFileType::Blessed)) by {
                    assert(!gen_list@.contains(g));
                }
            }
            current_generation = 1;
            image.create(1, LogFileType::Blessed);
            readers.insert(1, LogFileType::Blessed);
        } else {
            current_generation = gen_list[gen_list.len() - 1];
            proof {
                let last = gen_list@.len() - 1;
                assert(gen_list@.contains(gen_list@[last]));
                assert forall|g: u64| #[trigger]
                    files0.contains_key((g, LogFileType::Blessed)) implies g
                    <= current_generation by {
                    assert(gen_list@.contains(g));
                    let j = choose|j: int| 0 <= j < gen_list@.len() && gen_list@[j] == g;
                    assert(j < last ==> gen_list@[j] < gen_list@[last]);
                }
            }
        }
        proof {
            assert(is_top(files1, current_generation));
            assert(opened_generation(files0) == current_generation) by {
                let top = opened_generation(files0);
                assert(is_top(files1, top));
            }
        }
        let ghost goal = opened_state(files0);
        let mut kvs = KvStore {
            dir: image,
            map: InternalMap::new(),
            current_generation,
            readers,
            wasted_bytes: 0,
        };
        if gen_list.len() == 0 {
            proof {
                let s = kvs.state();
                assert(s.index =~= Replayed::empty().index);
                assert(files1 == files0.insert((1, LogFileType::Blessed), Seq::empty()));
                assert(crate::command::decode_at(Seq::<u8>::empty(), 0) is EndOfStream);
                assert(!files1.contains_key((0, LogFileType::Blessed)));
                assert(replay_from(files1, 2, 1, Replayed::empty()) == Ok::<Replayed, KvsError>(
                    Replayed::empty(),
                ));
                assert(replay_from(files1, 1, 1, Replayed::empty()) == Ok::<Replayed, KvsError>(
                    Replayed::empty(),
                ));
                assert(replay_from(files1, 0, 1, Replayed::empty()) == Ok::<Replayed, KvsError>(
                    Replayed::empty(),
                ));
                assert(s.readers =~= opened_readers(files0));
            }
            return Ok(kvs);
        }
        let mut i: usize = 0;
        proof {
            assert(kvs.state().index =~= Replayed::empty().index);
            assert(files0.contains_key((current_generation, LogFileType::Blessed)));
            assert(has_logs(files0));
        }
        while i < gen_list.len()
            invariant
                0 <= i <= gen_list@.len(),
                kvs.dir_wf(),
                kvs.state().consistent(),
                kvs.state().files == files0,
                kvs.state().generation == current_generation,
                kvs.journal() == dir.pending(),
                kvs.synced() == dir.synced(),
                files0 == dir@,
                has_logs(files0),
                opened_generation(files0) == current_generation,
                strictly_ascending(gen_list@),
                lists_logs(files0, gen_list@),
                gen_list@.len() > 0,
                current_generation == gen_list@[gen_list@.len() - 1],
                goal == opened_state(files0),
                replay_from(
                    files0,
                    read_from(gen_list@, i as int),
                    current_generation as nat,
                    Replayed { index: kvs.state().index, wasted: kvs.state().wasted },
                ) == goal,
                forall|g: u64| #[trigger]
                    kvs.state().readers.contains_key(g) <==> listed_before(gen_list@, i as int, g),
                forall|g: u64| #[trigger]
                    kvs.state().readers.contains_key(g) ==> kvs.state().readers[g]
                        == LogFileType::Blessed,
            decreases gen_list@.len() - i,
        {
            let generation = gen_list[i];
            let ghost before = kvs.state();
            proof {
                lemma_next_log(
                    files0,
                    gen_list@,
                    i as int,
                    current_generation,
                    Replayed { index: before.index, wasted: before.wasted },
                );
            }
            match kvs.load(generation) {
                Ok(()) => {},
                Err(e) => {
                    return Err(e);
                },
            }
            proof {
                assert forall|g: u64| #[trigger]
                    kvs.state().readers.contains_key(g) <==> listed_before(
                        gen_list@,
                        i + 1,
                        g,
                    ) by {
                    if kvs.state().readers.contains_key(g) {
                        if g != generation {
                            assert(listed_before(gen_list@, i as int, g));
                            let j = choose|j: int| 0 <= j < i && #[trigger] gen_list@[j] == g;
                            assert(0 <= j < i + 1 && gen_list@[j] == g);
                        } else {
                            assert(gen_list@[i as int] == g);
                        }
                    }
                    if listed_before(gen_list@, i + 1, g) {
                        let j = choose|j: int| 0 <= j < i + 1 && #[trigger] gen_list@[j] == g;
                        if j < i {
                            assert(listed_before(gen_list@, i as int, g));
                        }
                    }
                }
            }
            i = i + 1;
        }
        proof {
            let s = kvs.state();
            assert(goal == Ok::<Replayed, KvsError>(Replayed { index: s.index, wasted: s.wasted }));
            assert forall|g: u64| #[trigger]
                s.files.contains_key((g, LogFileType::Blessed)) implies s.readers.contains_key(g)
                && s.readers[g] == LogFileType::Blessed by {
                assert(gen_list@.contains(g));
                let j = choose|j: int| 0 <= j < gen_list@.len() && gen_list@[j] == g;
                assert(i == gen_list@.len());
                assert(0 <= j < i && gen_list@[j] == g);
                assert(listed_before(gen_list@, i as int, g));
                assert(s.readers.contains_key(g));
            }
            assert(s.readers =~= opened_readers(files0)) by {
                assert forall|g: u64| s.readers.contains_key(g) implies #[trigger] files0.contains_key(
                    (g, LogFileType::Blessed),
                ) by {
                    assert(listed_before(gen_list@, i as int, g));
                    let j = choose|j: int| 0 <= j < i && #[trigger] gen_list@[j] == g;
                    assert(gen_list@.contains(g));
                }
            }
        }
        Ok(kvs)
    }

    /// Reads the log of `generation` from its start into the index, and
    /// opens a reader on it.
    fn load(&mut self, generation: u64) -> (r: Result<(), KvsError>)
        requires
            old(self).dir_wf(),
            old(self).state().consistent(),
            old(self).state().files.contains_key((generation, LogFileType::Blessed)),
            old(self).state().readers.contains_key(generation) ==> old(self).state().readers[generation] == LogFileType::Blessed,
        ensures
            final(self).dir == old(self).dir,
            final(self).state().generation == old(self).state().generation,
            match replay_log(
                old(self).state().files[(generation, LogFileType::Blessed)],
                generation,
                0,
                Replayed { index: old(self).state().index, wasted: old(self).state().wasted },
            ) {
                Ok(st) => r is Ok && final(self).state().index == st.index && final(self).state().wasted == st.wasted && final(self).state().readers == old(self).state().readers.insert(generation, LogFileType::Blessed) && final(self).state().consistent(),
                Err(e) => r == Err::<(), KvsError>(e),
            },
    {
        let bytes = match self.dir.read(generation, LogFileType::Blessed) {
            Some(bytes) => bytes,
            None => { return Err(KvsError::IndexInconsistent); },
        };
        match replay_generation(bytes.as_slice(), generation, &mut self.map, &mut self.wasted_bytes) {
            Ok(()) => {},
            Err(e) => { return Err(e); },
        }
        self.cache_reader(generation, LogFileType::Blessed);
        proof {
            let s = self.state();
            let before = old(self).state();
            assert forall|key: Seq<char>| #[trigger] s.index.contains_key(key) implies entry_readable(
                s.files,
                s.readers,
                key,
                s.index[key],
            ) && s.index[key].generation <= s.generation by {
                let entry = s.index[key];
                if before.index.contains_key(key) && entry == before.index[key] {
                    assert(entry_readable(before.files, before.readers, key, entry));
                } else {
                    assert(entry.generation == generation);
                    assert(entry_matches(bytes@, key, entry));
                }
            }
            assert forall|g: u64| #[trigger] s.readers.contains_key(g) implies g <= s.generation
                && s.files.contains_key((g, s.readers[g])) by {
                if g != generation {
                    assert(before.readers.contains_key(g));
                }
            }
        }
        Ok(())
    }

    /// Sets the value of `key` to `value`. A value that the key had is
    /// superseded.
    ///
    /// A `SetValue` record is written at the end of the active log; then the
    /// index is pointed at it and the bytes of the superseded record, if
    /// there is one, are counted as wasted; then a compaction runs if one is
    /// due. The value is set whether or not the compaction succeeds.
    pub fn set(&mut self, key: String, value: String) -> (r: Result<(), KvsError>)
        requires
            old(self).wf(),
        ensures
            final(self).wf(),
            final(self)@ == old(self)@.insert(key@, value@),
            compaction_result(old(self).state().with_set(key@, value@), final(self).state(), r),
            old(self).state().durable() ==> final(self).state().durable(),
            final(self).journal() == old(self).journal().push(
                FileOpView::Append {
                    generation: old(self).state().generation,
                    kind: LogFileType::Blessed,
                    data: (CommandView::SetValue { key: key@, value: value@ }).encoding(),
                },
            ) + compaction_ops(old(self).state().with_set(key@, value@)),
            final(self).synced() == old(self).synced(),
    {
        let ghost s = self.state();
        let key_len = byte_len(&key);
        let value_len = byte_len(&value);
        let command = Command::SetValue { key: key.clone(), value };
        let mut record: Vec<u8> = Vec::new();
        command.to_writer(&mut record);
        let estimated_bytes = key_len + value_len;
        let current_pos = self.dir.append(self.current_generation, LogFileType::Blessed, record);
        match self.map.set(
            key.as_str(),
            self.current_generation,
            current_pos as u64,
            estimated_bytes,
        ) {
            Ok(more) => {
                self.wasted_bytes = self.wasted_bytes.saturating_add(more);
            },
            Err(e) => {
                return Err(e);
            },
        }
        proof {
            assert(record@ =~= command@.encoding());
            lemma_set_keeps_wf(s, key@, value@);
            assert(self.state() == s.with_set(key@, value@));
            if s.durable() {
                lemma_set_keeps_durable(s, key@, value@);
            }
        }
        let ghost mid = self.state();
        let r = self.maybe_run_compaction();
        proof {
            if mid.durable() {
                lemma_compaction_keeps_durable(mid, self.state(), r);
            }
        }
        r
    }

    /// The value of `key`, or nothing where the key has none.
    ///
    /// The index says where the key's latest record lies; the record is read
    /// there through the reader of its generation. The call fails with
    /// [`KvsError::IndexInconsistent`] where the generation has no reader or
    /// the place does not hold a `SetValue` record of the key, which a sound
    /// store rules out.
    pub fn get(&self, key: String) -> (r: Result<Option<String>, KvsError>)
        requires
            self.wf(),
        ensures
            match r {
                Ok(Some(value)) => self@.contains_key(key@) && value@ == self@[key@],
                Ok(None) => !self@.contains_key(key@),
                Err(_) => false,
            },
    {
        let entry = match self.map.get(key.as_str()) {
            Ok(Some(entry)) => entry,
            Ok(None) => { return Ok(None); },
            Err(e) => { return Err(e); },
        };
        proof {
            assert(self.state().index.contains_key(key@));
            assert(entry_readable(self.state().files, self.state().readers, key@, entry));
        }
        let kind = match self.reader(entry.generation) {
            Some(kind) => kind,
            None => { return Err(KvsError::IndexInconsistent); },
        };
        let bytes = match self.dir.read(entry.generation, kind) {
            Some(bytes) => bytes,
            None => { return Err(KvsError::IndexInconsistent); },
        };
        proof {
            lemma_decoded_bytes(bytes@, entry.file_pos as int);
        }
        if entry.file_pos > bytes.len() as u64 {
            return Err(KvsError::IndexInconsistent);
        }
        match Command::from_reader(bytes.as_slice(), entry.file_pos as usize) {
            Ok((Command::SetValue { key: found, value }, _)) => {
                if found == key {
                    Ok(Some(value))
                } else {
                    Err(KvsError::IndexInconsistent)
                }
            },
            _ => Err(KvsError::IndexInconsistent),
        }
    }

    /// Removes `key` and its value.
    ///
    /// Where the key has no value the call fails with
    /// [`KvsError::KeyNotFound`] and nothing is written. Otherwise a `Remove`
    /// record is written at the end of the active log; then the key's entry
    /// is deleted from the index and the bytes of its record are counted as
    /// wasted; then a compaction runs if one is due. The key is removed
    /// whether or not the compaction succeeds.
    pub fn remove(&mut self, key: String) -> (r: Result<(), KvsError>)
        requires
            old(self).wf(),
        ensures
            final(self).wf(),
            !old(self)@.contains_key(key@) ==> r == Err::<(), KvsError>(KvsError::KeyNotFound)
                && final(self).state() == old(self).state() && final(self).journal() == old(self).journal(),
            old(self)@.contains_key(key@) ==> final(self)@ == old(self)@.remove(key@)
                && compaction_result(
                old(self).state().with_remove(key@),
                final(self).state(),
                r,
            ),
            old(self).state().durable() ==> final(self).state().durable(),
            old(self)@.contains_key(key@) ==> final(self).journal() == old(self).journal().push(
                FileOpView::Append {
                    generation: old(self).state().generation,
                    kind: LogFileType::Blessed,
                    data: (CommandView::Remove { key: key@ }).encoding(),
                },
            ) + compaction_ops(old(self).state().with_remove(key@)),
            final(self).synced() == old(self).synced(),
    {
        let ghost s = self.state();
        match self.map.get(key.as_str()) {
            Ok(Some(_)) => {},
            Ok(None) => {
                return Err(KvsError::KeyNotFound);
            },
            Err(e) => {
                return Err(e);
            },
        }
        let command = Command::Remove { key: key.clone() };
        let mut record: Vec<u8> = Vec::new();
        command.to_writer(&mut record);
        self.dir.append(self.current_generation, LogFileType::Blessed, record);
        match self.map.remove(key.as_str()) {
            Ok(more) => {
                self.wasted_bytes = self.wasted_bytes.saturating_add(more);
            },
            Err(e) => {
                return Err(e);
            },
        }
        proof {
            assert(record@ =~= command@.encoding());
            lemma_remove_keeps_wf(s, key@);
            assert(self.state() == s.with_remove(key@));
            if s.durable() {
                lemma_remove_keeps_durable(s, key@);
            }
        }
        let ghost mid = self.state();
        let r = self.maybe_run_compaction();
        proof {
            if mid.durable() {
                lemma_compaction_keeps_durable(mid, self.state(), r);
            }
        }
        r
    }

    /// Checks whether a compaction is due, and if so runs it now.
    ///
    /// A compaction is due once the count of wasted bytes has reached
    /// [`COMPACTION_BYTES_THRESHOLD`]. It takes two fresh generations: the
    /// target, which the live records are written to, and the successor,
    /// which receives the writes from then on. The old logs are scanned in
    /// ascending order and the present value of every live key is written to
    /// the target, once. Then the target becomes a log, the count of wasted
    /// bytes becomes zero, and the old logs are deleted.
    ///
    /// The old logs are deleted only if the scan has reached every live key;
    /// if not, the call fails and every file is left in place.
    fn maybe_run_compaction(&mut self) -> (r: Result<(), KvsError>)
        requires
            old(self).wf(),
        ensures
            final(self).wf(),
            final(self)@ == old(self)@,
            compaction_result(old(self).state(), final(self).state(), r),
            final(self).journal() == old(self).journal() + compaction_ops(old(self).state()),
            final(self).synced() == old(self).synced(),
    {
        if self.wasted_bytes < COMPACTION_BYTES_THRESHOLD {
            assert(self.journal() + Seq::<FileOpView>::empty() =~= self.journal());
            return Ok(());
        }
        if self.current_generation > u64::MAX - 2 {
            assert(self.journal() + Seq::<FileOpView>::empty() =~= self.journal());
            return Err(KvsError::CompactionFailed(CompactionCause::GenerationsExhausted));
        }
        let ghost start = self.state();
        let gen_list = self.dir.generations();
        let compaction_target_generation = self.current_generation + 1;
        let new_writes_generation = self.current_generation + 2;
        self.dir.create(compaction_target_generation, LogFileType::Temporary);
        self.dir.create(new_writes_generation, LogFileType::Blessed);
        self.cache_reader(compaction_target_generation, LogFileType::Temporary);
        self.cache_reader(new_writes_generation, LogFileType::Blessed);
        self.current_generation = new_writes_generation;
        let live = self.map.len();
        let ghost base = self.journal();
        proof {
            lemma_prepared(start);
            assert(self.state() == start.prepared());
            assert(base + start.unwritten().ops =~= base);
            assert(base =~= old(self).journal() + seq![
                FileOpView::Create { generation: start.target(), kind: LogFileType::Temporary },
                FileOpView::Create { generation: start.successor(), kind: LogFileType::Blessed },
            ]);
        }
        let mut already_handled = StringHashSet::new();
        let mut rewritten: usize = 0;
        let ghost mut rw = start.unwritten();
        let ghost mut seen = Replayed::empty();
        let ghost whole = Ok::<Replayed, KvsError>(
            Replayed { index: start.index, wasted: start.wasted },
        );
        let mut i: usize = 0;
        proof {
            assert(gen_list@.contains(start.generation));
            let last = gen_list@.len() - 1;
            assert(gen_list@.contains(gen_list@[last]));
            let at = choose|at: int| 0 <= at < gen_list@.len() && gen_list@[at] == start.generation;
            assert(at < last ==> gen_list@[at] < gen_list@[last]);
        }
        while i < gen_list.len()
            invariant
                0 <= i <= gen_list@.len(),
                self.dir_wf(),
                rewriting_exactly(self.state(), start, rw),
                already_handled@ == rw.handled,
                compaction_target_generation == start.target(),
                rewritten == rw.moved.len(),
                live == start.index.dom().len(),
                lists_logs(start.files, gen_list@),
                strictly_ascending(gen_list@),
                gen_list@.len() > 0,
                gen_list@[gen_list@.len() - 1] == start.generation,
                rewrite_from(
                    start.files,
                    read_from(gen_list@, i as int),
                    start.generation as nat,
                    rw,
                    start.contents(),
                    start.target(),
                ) == start.rewritten(),
                whole == Ok::<Replayed, KvsError>(
                    Replayed { index: start.index, wasted: start.wasted },
                ),
                start.durable() ==> reached(self.state(), rw.moved, rw.handled)
                    && seen.index.dom().subset_of(rw.handled) && replay_from(
                    start.files,
                    read_from(gen_list@, i as int),
                    start.generation as nat,
                    seen,
                ) == whole,
                self.journal() == base + rw.ops,
                self.synced() == old(self).synced(),
            decreases gen_list@.len() - i,
        {
            let generation = gen_list[i];
            proof {
                lemma_next_log(start.files, gen_list@, i as int, start.generation, seen);
                lemma_next_rewrite(
                    start.files,
                    gen_list@,
                    i as int,
                    start.generation,
                    rw,
                    start.contents(),
                    start.target(),
                );
            }
            match self.rewrite_generation(
                generation,
                compaction_target_generation,
                &mut already_handled,
                &mut rewritten,
                live,
                Ghost(start),
                Ghost(rw),
                Ghost(seen),
                Ghost(base),
            ) {
                Ok(now) => {
                    proof {
                        rw = now@;
                        if start.durable() {
                            seen = replay_log(
                                start.files[(generation, LogFileType::Blessed)],
                                generation,
                                0,
                                seen,
                            )->Ok_0;
                        }
                    }
                },
                Err(e) => {
                    return Err(e);
                },
            }
            i = i + 1;
        }
        proof {
            let s = self.state();
            assert(rw == start.rewritten());
            if start.durable() {
                assert(replay_from(
                    start.files,
                    (start.generation + 1) as nat,
                    start.generation as nat,
                    seen,
                ) == Ok::<Replayed, KvsError>(seen));
                assert(seen.index == start.index);
                assert(s.index.dom().subset_of(rw.moved)) by {
                    assert forall|key: Seq<char>| s.index.dom().contains(key) implies rw.moved.contains(
                        key,
                    ) by {
                        assert(seen.index.dom().contains(key));
                        assert(rw.handled.contains(key));
                        assert(s.index.contains_key(key));
                    }
                }
                assert(rw.moved =~= s.index.dom());
            }
            if rewritten == s.index.dom().len() {
                vstd::set_lib::lemma_subset_equality(rw.moved, s.index.dom());
            }
        }
        if rewritten != self.map.len() {
            assert(self.journal() =~= old(self).journal() + compaction_ops(start));
            return Err(KvsError::CompactionFailed(CompactionCause::UnreachableRecords));
        }
        let ghost pre = self.state();
        proof {
            lemma_blessed(pre, start, rw.moved, rw.handled);
        }
        self.dir.bless(compaction_target_generation);
        self.cache_reader(compaction_target_generation, LogFileType::Blessed);
        self.wasted_bytes = 0;
        let ghost b = self.state();
        assert(b == pre.blessed(start.target()));
        proof {
            assert forall|g: u64| #[trigger]
                start.files.contains_key((g, LogFileType::Blessed)) implies b.files.contains_key(
                (g, LogFileType::Blessed),
            ) by {
                assert(start.prepared().files.contains_key((g, LogFileType::Blessed)));
                assert(pre.files.contains_key((g, LogFileType::Blessed)));
            }
        }
        let ghost blessing = self.journal();
        let ghost mut retired: Seq<FileOpView> = Seq::empty();
        proof {
            assert(blessing + retired =~= blessing);
            assert(retired + retire_ops(start.files, 0, start.generation as nat) =~= retire_ops(
                start.files,
                0,
                start.generation as nat,
            ));
        }
        let mut j: usize = 0;
        while j < gen_list.len()
            invariant
                0 <= j <= gen_list@.len(),
                gen_list@.len() > 0,
                gen_list@[gen_list@.len() - 1] == start.generation,
                self.journal() == blessing + retired,
                retired + retire_ops(
                    start.files,
                    read_from(gen_list@, j as int),
                    start.generation as nat,
                ) == retire_ops(start.files, 0, start.generation as nat),
                self.dir_wf(),
                self.wf(),
                self@ == b.contents(),
                retiring(self.state(), b, gen_list@, j as int),
                start.wf(),
                start.generation <= u64::MAX - 2,
                lists_logs(start.files, gen_list@),
                strictly_ascending(gen_list@),
                b.wf(),
                b.generation == start.successor(),
                forall|key: Seq<char>| #[trigger]
                    b.index.contains_key(key) ==> b.index[key].generation == start.target(),
                forall|g: u64| #[trigger]
                    start.files.contains_key((g, LogFileType::Blessed)) ==> b.files.contains_key(
                        (g, LogFileType::Blessed),
                    ),
                self.synced() == old(self).synced(),
            decreases gen_list@.len() - j,
        {
            let generation = gen_list[j];
            proof {
                lemma_retire_step(self.state(), b, start, gen_list@, j as int);
                lemma_next_retire(start.files, gen_list@, j as int, start.generation);
            }
            let ghost s = self.state();
            self.dir.remove(generation, LogFileType::Blessed);
            self.evict_reader(generation);
            assert(self.state() == s.retired(generation));
            proof {
                let op = FileOpView::Remove { generation, kind: LogFileType::Blessed };
                let rest = retire_ops(
                    start.files,
                    read_from(gen_list@, j + 1),
                    start.generation as nat,
                );
                assert(retired.push(op) + rest =~= retired + (seq![op] + rest));
                assert(self.journal() =~= blessing + retired.push(op));
                retired = retired.push(op);
            }
            j = j + 1;
        }
        proof {
            lemma_retired_all(self.state(), pre, start, rw.moved, rw.handled, gen_list@);
            assert(self.state().files.contains_key((start.target(), LogFileType::Blessed)));
            assert(retire_ops(
                start.files,
                (start.generation + 1) as nat,
                start.generation as nat,
            ) =~= Seq::<FileOpView>::empty());
            assert(retired =~= retire_ops(start.files, 0, start.generation as nat));
            assert(blessing =~= base + rw.ops + seq![
                FileOpView::Bless { generation: start.target() },
            ]);
            assert(self.journal() =~= old(self).journal() + compaction_ops(start));
        }
        Ok(())
    }

    /// Scans the old log of `generation` from its start and rewrites the
    /// record of every key that it meets first in a `SetValue` record. A key
    /// met in a `Remove` record is handled without more. The scan ends where
    /// no further record can be read.
    fn rewrite_generation(
        &mut self,
        generation: u64,
        target: u64,
        already_handled: &mut StringHashSet,
        rewritten: &mut usize,
        live: usize,
        Ghost(start): Ghost<StoreState>,
        Ghost(rw): Ghost<Rewritten>,
        Ghost(seen): Ghost<Replayed>,
        Ghost(base): Ghost<Seq<FileOpView>>,
    ) -> (r: Result<Ghost<Rewritten>, KvsError>)
        requires
            old(self).dir_wf(),
            rewriting_exactly(old(self).state(), start, rw),
            old(already_handled)@ == rw.handled,
            old(self).journal() == base + rw.ops,
            target == start.target(),
            *old(rewritten) == rw.moved.len(),
            live == start.index.dom().len(),
            start.files.contains_key((generation, LogFileType::Blessed)),
        ensures
            final(self).dir_wf(),
            final(self).synced() == old(self).synced(),
            r matches Ok(now) && final(self).journal() == base + now@.ops,
            r matches Ok(now) && now@ == rewrite_log(
                start.files[(generation, LogFileType::Blessed)],
                0,
                rw,
                start.contents(),
                target,
            ) && rewriting_exactly(final(self).state(), start, now@) && final(already_handled)@
                == now@.handled && *final(rewritten) == now@.moved.len(),
            reached(old(self).state(), rw.moved, rw.handled) && seen.index.dom().subset_of(
                rw.handled,
            ) && replay_log(
                start.files[(generation, LogFileType::Blessed)],
                generation,
                0,
                seen,
            ) is Ok ==> (r matches Ok(now) && reached(
                final(self).state(),
                now@.moved,
                now@.handled,
            ) && replay_log(
                start.files[(generation, LogFileType::Blessed)],
                generation,
                0,
                seen,
            )->Ok_0.index.dom().subset_of(now@.handled)),
    {
        let ghost log = start.files[(generation, LogFileType::Blessed)];
        let ghost goal = rewrite_log(log, 0, rw, start.contents(), target);
        let ghost whole = replay_log(log, generation, 0, seen);
        let ghost following = reached(self.state(), rw.moved, rw.handled)
            && seen.index.dom().subset_of(rw.handled) && whole is Ok;
        let ghost mut cur = seen;
        let ghost mut now = rw;
        let mut pos: usize = 0;
        loop
            invariant
                goal == rewrite_log(log, 0, rw, start.contents(), target),
                rewrite_log(log, pos as nat, now, start.contents(), target) == goal,
                whole == replay_log(log, generation, 0, seen),
                following == (reached(old(self).state(), rw.moved, rw.handled)
                    && seen.index.dom().subset_of(rw.handled) && whole is Ok),
                following ==> reached(self.state(), now.moved, now.handled)
                    && cur.index.dom().subset_of(now.handled) && replay_log(
                    log,
                    generation,
                    pos as nat,
                    cur,
                ) == whole,
                self.dir_wf(),
                rewriting_exactly(self.state(), start, now),
                already_handled@ == now.handled,
                target == start.target(),
                *rewritten == now.moved.len(),
                live == start.index.dom().len(),
                start.files.contains_key((generation, LogFileType::Blessed)),
                log == start.files[(generation, LogFileType::Blessed)],
                self.journal() == base + now.ops,
                self.synced() == old(self).synced(),
            decreases log.len() - pos,
        {
            proof {
                let f = (generation, LogFileType::Blessed);
                assert(start.prepared().files.contains_key(f));
                assert(self.state().files.contains_key(f));
                assert(generation <= start.generation);
                assert(self.state().files[f] == log);
            }
            let decoded = match self.dir.read(generation, LogFileType::Blessed) {
                Some(bytes) => Command::from_reader(bytes.as_slice(), pos),
                None => Err(DecodeError::EndOfStream),
            };
            match decoded {
                Ok((command, next)) => {
                    let ghost met = cur;
                    proof {
                        lemma_decoded_bytes(log, pos as int);
                        if following {
                            assert(apply_record(met, command@, generation, pos as nat) is Ok);
                            cur = apply_record(met, command@, generation, pos as nat)->Ok_0;
                        }
                    }
                    match command {
                        Command::SetValue { key, value: _ } => {
                            match self.rewrite_key(
                                key,
                                target,
                                already_handled,
                                rewritten,
                                live,
                                Ghost(start),
                                Ghost(now),
                                Ghost(base),
                            ) {
                                Ok(after) => {
                                    proof {
                                        now = after@;
                                    }
                                },
                                Err(e) => {
                                    return Err(e);
                                },
                            }
                        },
                        Command::Remove { key } => {
                            proof {
                                lemma_rewrite_skips_key(
                                    self.state(),
                                    start,
                                    now.moved,
                                    now.handled,
                                    key@,
                                );
                                if following {
                                    assert(met.index.contains_key(key@));
                                    assert(now.handled.contains(key@));
                                }
                                now = Rewritten { handled: now.handled.insert(key@), ..now };
                            }
                            already_handled.insert(key);
                        },
                    }
                    pos = next;
                },
                Err(_) => {
                    return Ok(Ghost(now));
                },
            }
        }
    }

    /// Rewrites the record of `key`, which the scan of an old log has met in
    /// a `SetValue` record: unless the key was handled already or is not
    /// live, its present value is written to the temporary file of `target`
    /// and its entry is pointed there. The key is handled from now on.
    fn rewrite_key(
        &mut self,
        key: String,
        target: u64,
        already_handled: &mut StringHashSet,
        rewritten: &mut usize,
        live: usize,
        Ghost(start): Ghost<StoreState>,
        Ghost(rw): Ghost<Rewritten>,
        Ghost(base): Ghost<Seq<FileOpView>>,
    ) -> (r: Result<Ghost<Rewritten>, KvsError>)
        requires
            old(self).dir_wf(),
            rewriting_exactly(old(self).state(), start, rw),
            old(already_handled)@ == rw.handled,
            old(self).journal() == base + rw.ops,
            target == start.target(),
            *old(rewritten) == rw.moved.len(),
            live == start.index.dom().len(),
        ensures
            final(self).dir_wf(),
            final(self).synced() == old(self).synced(),
            r matches Ok(now) && final(self).journal() == base + now@.ops,
            r matches Ok(now) && now@ == rewrite_set(rw, start.contents(), target, key@)
                && rewriting_exactly(final(self).state(), start, now@) && final(already_handled)@ == now@.handled && *final(rewritten) == now@.moved.len(),
            reached(old(self).state(), rw.moved, rw.handled) ==> (r matches Ok(now) && reached(
                final(self).state(),
                now@.moved,
                now@.handled,
            )),
    {
        if already_handled.contains(key.as_str()) {
            return Ok(Ghost(rw));
        }
        let ghost s = self.state();
        let ghost now = rewrite_set(rw, start.contents(), target, key@);
        match self.get(key.clone()) {
            Ok(Some(value)) => {
                let key_len = byte_len(&key);
                let value_len = byte_len(&value);
                let ghost text = value@;
                let command = Command::SetValue { key: key.clone(), value };
                let mut record: Vec<u8> = Vec::new();
                command.to_writer(&mut record);
                let estimated_bytes = key_len + value_len;
                let pos = self.dir.append(target, LogFileType::Temporary, record);
                let _ = self.map.set(key.as_str(), target, pos as u64, estimated_bytes);
                proof {
                    assert(record@ =~= command@.encoding());
                    lemma_rewrite_moves_key(s, start, rw.moved, rw.handled, key@, text);
                    assert(self.state() == s.with_rewritten(target, key@, text));
                    assert(self.journal() =~= base + now.ops);
                    vstd::set_lib::lemma_len_subset(now.moved, self.state().index.dom());
                }
                *rewritten = *rewritten + 1;
            },
            Ok(None) => {
                proof {
                    lemma_rewrite_skips_key(s, start, rw.moved, rw.handled, key@);
                }
            },
            Err(e) => {
                return Err(e);
            },
        }
        already_handled.insert(key);
        Ok(Ghost(now))
    }

    /// The kind of file that the reader of `generation` is open on, if the
    /// generation has a reader.
    fn reader(&self, generation: u64) -> (kind: Option<LogFileType>)
        ensures
            match kind {
                Some(k) => self.state().readers.contains_key(generation)
                    && self.state().readers[generation] == k,
                None => !self.state().readers.contains_key(generation),
            },
    {
        match self.readers.get(&generation) {
            Some(kind) => Some(*kind),
            None => None,
        }
    }

    /// Opens a reader of `generation` on its file of kind `kind`, in place of
    /// the reader that the generation had.
    fn cache_reader(&mut self, generation: u64, kind: LogFileType)
        ensures
            final(self).state() == (StoreState {
                readers: old(self).state().readers.insert(generation, kind),
                ..old(self).state()
            }),
            final(self).dir == old(self).dir,
    {
        self.readers.insert(generation, kind);
    }

    /// Closes the reader of `generation`.
    fn evict_reader(&mut self, generation: u64)
        ensures
            final(self).state() == (StoreState {
                readers: old(self).state().readers.remove(generation),
                ..old(self).state()
            }),
            final(self).dir == old(self).dir,
    {
        self.readers.remove(&generation);
    }

    /// Takes the journal: the changes that the store has made to the
    /// directory since the journal was last taken, in order. Carried out on
    /// the directory as it then stood, they make it what the image is now.
    pub fn take_ops(&mut self) -> (ops: Vec<FileOp>)
        requires
            old(self).wf(),
        ensures
            final(self).wf(),
            final(self).state() == old(self).state(),
            views(ops@) == old(self).journal(),
            apply_ops(old(self).synced(), views(ops@)) == final(self).state().files,
            final(self).journal().len() == 0,
            final(self).synced() == final(self).state().files,
    {
        self.dir.take_ops()
    }

    /// Closes the store and hands back the image of its directory.
    pub fn into_dir(self) -> (dir: LogDir)
        requires
            self.wf(),
        ensures
            dir.wf(),
            dir@ == self.state().files,
            dir.pending() == self.journal(),
            dir.synced() == self.synced(),
    {
        self.dir
    }

    /// The image of the store's directory.
    pub fn dir(&self) -> (dir: &LogDir)
        requires
            self.wf(),
        ensures
            dir.wf(),
            dir@ == self.state().files,
            dir.pending() == self.journal(),
    {
        &self.dir
    }

    /// The generation whose log receives the writes.
    pub fn current_generation(&self) -> (generation: u64)
        ensures
            generation == self.state().generation,
    {
        self.current_generation
    }

    /// The count of wasted bytes: those of the records that later records
    /// have superseded since the last compaction.
    pub fn wasted_bytes(&self) -> (wasted: usize)
        ensures
            wasted == self.state().wasted,
    {
        self.wasted_bytes
    }

    /// The number of live keys.
    pub fn len(&self) -> (n: usize)
        ensures
            n == self@.len(),
    {
        assert(self@.dom() =~= self.state().index.dom());
        self.map.len()
    }

    /// The number of readers that the store holds.
    pub fn reader_count(&self) -> (n: usize)
        ensures
            n == self.state().readers.len(),
    {
        self.readers.len()
    }
}

} // verus!
