//! Compaction as a series of steps on the state of a store, and what holds
//! after each.

use crate::command::CommandView;
use crate::command::Decoding;
use crate::command::decode_at;
use crate::command::lemma_decode_encoded;
use crate::command::lemma_decoded_bytes;
use crate::error::CompactionCause;
use crate::error::KvsError;
use crate::generation::LogFileType;
use crate::index::LogEntry;
use crate::index::index_after_set;
use crate::logdir::FileOpView;
use crate::logdir::Files;
use crate::logdir::lists_logs;
use crate::logdir::strictly_ascending;
use crate::replay::Replayed;
use crate::replay::entry_for;
use crate::replay::lemma_replay_appended;
use crate::replay::lemma_replay_skips;
use crate::replay::replay_from;
use crate::replay::replay_log;
use crate::replay::whole_records;
use crate::state::COMPACTION_BYTES_THRESHOLD;
use crate::state::StoreState;
use crate::state::entry_readable;
use crate::state::entry_value;
use crate::state::lemma_append_keeps_entry;
use vstd::prelude::*;

verus! {

impl StoreState {
    /// The generation that a compaction of this state writes the live
    /// records to.
    pub open spec fn target(self) -> u64 {
        (self.generation + 1) as u64
    }

    /// The generation that receives the writes once a compaction of this
    /// state has begun.
    pub open spec fn successor(self) -> u64 {
        (self.generation + 2) as u64
    }

    /// The state after a compaction was prepared: the temporary file of the
    /// target and the log of the successor exist and are empty, both have a
    /// reader, and the successor is the active generation.
    pub open spec fn prepared(self) -> StoreState {
        StoreState {
            files: self.files.insert((self.target(), LogFileType::Temporary), Seq::empty()).insert(
                (self.successor(), LogFileType::Blessed),
                Seq::empty(),
            ),
            readers: self.readers.insert(self.target(), LogFileType::Temporary).insert(
                self.successor(),
                LogFileType::Blessed,
            ),
            generation: self.successor(),
            ..self
        }
    }

    /// The state after the live record of `key`, whose value is `value`, was
    /// written to the temporary file of `target` and the key's entry was
    /// pointed at it.
    pub open spec fn with_rewritten(self, target: u64, key: Seq<char>, value: Seq<char>) -> StoreState {
        let command = CommandView::SetValue { key, value };
        let file = self.files[(target, LogFileType::Temporary)];
        StoreState {
            files: self.files.insert((target, LogFileType::Temporary), file + command.encoding()),
            index: index_after_set(self.index, key, entry_for(command, target, file.len())),
            ..self
        }
    }

    /// The state after the temporary file of `target` was renamed to be its
    /// log, the reader of `target` was opened on the log, and the count of
    /// wasted bytes was set to zero.
    pub open spec fn blessed(self, target: u64) -> StoreState {
        StoreState {
            files: self.files.remove((target, LogFileType::Temporary)).insert(
                (target, LogFileType::Blessed),
                self.files[(target, LogFileType::Temporary)],
            ),
            readers: self.readers.insert(target, LogFileType::Blessed),
            wasted: 0,
            ..self
        }
    }

    /// The state after the log of `generation` was deleted and its reader
    /// was closed.
    pub open spec fn retired(self, generation: u64) -> StoreState {
        StoreState {
            files: self.files.remove((generation, LogFileType::Blessed)),
            readers: self.readers.remove(generation),
            ..self
        }
    }
}

/// What a compaction has done so far.
pub struct Rewritten {
    /// The keys that the scan of the old logs has met.
    pub handled: Set<Seq<char>>,
    /// The keys whose live records were written to the target.
    pub moved: Set<Seq<char>>,
    /// The index.
    pub index: Map<Seq<char>, LogEntry>,
    /// The bytes of the target.
    pub log: Seq<u8>,
    /// The changes made to the directory, in order.
    pub ops: Seq<FileOpView>,
}

/// What a compaction has done once the scan has met `key` in a `SetValue`
/// record. A key that was handled is passed over. A key that is live, with
/// its value in `contents`, is written to the target and its entry is
/// pointed there. The key is handled from now on.
pub open spec fn rewrite_set(
    rw: Rewritten,
    contents: Map<Seq<char>, Seq<char>>,
    target: u64,
    key: Seq<char>,
) -> Rewritten {
    if rw.handled.contains(key) {
        rw
    } else if contents.contains_key(key) {
        let command = CommandView::SetValue { key, value: contents[key] };
        Rewritten {
            handled: rw.handled.insert(key),
            moved: rw.moved.insert(key),
            index: index_after_set(rw.index, key, entry_for(command, target, rw.log.len())),
            log: rw.log + command.encoding(),
            ops: rw.ops.push(
                FileOpView::Append {
                    generation: target,
                    kind: LogFileType::Temporary,
                    data: command.encoding(),
                },
            ),
        }
    } else {
        Rewritten { handled: rw.handled.insert(key), ..rw }
    }
}

/// What a compaction has done once the scan has met the record `command`. A
/// key met in a `Remove` record is handled without more.
pub open spec fn rewrite_record(
    rw: Rewritten,
    contents: Map<Seq<char>, Seq<char>>,
    target: u64,
    command: CommandView,
) -> Rewritten {
    match command {
        CommandView::SetValue { key, value } => rewrite_set(rw, contents, target, key),
        CommandView::Remove { key } => Rewritten { handled: rw.handled.insert(key), ..rw },
    }
}

/// What a compaction has done once it has scanned the old log `bytes` from
/// `pos` on. The scan ends where no further record can be read.
pub open spec fn rewrite_log(
    bytes: Seq<u8>,
    pos: nat,
    rw: Rewritten,
    contents: Map<Seq<char>, Seq<char>>,
    target: u64,
) -> Rewritten
    decreases bytes.len() - pos,
{
    match decode_at(bytes, pos as int) {
        Decoding::Record { command, next } => {
            proof {
                lemma_decoded_bytes(bytes, pos as int);
            }
            rewrite_log(
                bytes,
                next as nat,
                rewrite_record(rw, contents, target, command),
                contents,
                target,
            )
        },
        _ => rw,
    }
}

/// What a compaction has done once it has scanned the logs of the
/// generations `from` to `upto` in `files`, in ascending order.
pub open spec fn rewrite_from(
    files: Files,
    from: nat,
    upto: nat,
    rw: Rewritten,
    contents: Map<Seq<char>, Seq<char>>,
    target: u64,
) -> Rewritten
    decreases upto + 1 - from,
{
    if from > upto {
        rw
    } else if files.contains_key((from as u64, LogFileType::Blessed)) {
        rewrite_from(
            files,
            from + 1,
            upto,
            rewrite_log(files[(from as u64, LogFileType::Blessed)], 0, rw, contents, target),
            contents,
            target,
        )
    } else {
        rewrite_from(files, from + 1, upto, rw, contents, target)
    }
}

impl StoreState {
    /// A compaction of this state before it has scanned anything.
    pub open spec fn unwritten(self) -> Rewritten {
        Rewritten {
            handled: Set::empty(),
            moved: Set::empty(),
            index: self.index,
            log: Seq::empty(),
            ops: Seq::empty(),
        }
    }

    /// What a compaction of this state does: the outcome of scanning every
    /// log in ascending order of generation.
    pub open spec fn rewritten(self) -> Rewritten {
        rewrite_from(
            self.files,
            0,
            self.generation as nat,
            self.unwritten(),
            self.contents(),
            self.target(),
        )
    }
}

/// Scanning the logs from where the first `done` of them ended is scanning
/// the next log and then going on behind it.
pub proof fn lemma_next_rewrite(
    files: Files,
    gens: Seq<u64>,
    done: int,
    upto: u64,
    rw: Rewritten,
    contents: Map<Seq<char>, Seq<char>>,
    target: u64,
)
    requires
        strictly_ascending(gens),
        lists_logs(files, gens),
        0 <= done < gens.len(),
        gens[gens.len() - 1] == upto,
    ensures
        rewrite_from(files, read_from(gens, done), upto as nat, rw, contents, target)
            == rewrite_from(
            files,
            read_from(gens, done + 1),
            upto as nat,
            rewrite_log(files[(gens[done], LogFileType::Blessed)], 0, rw, contents, target),
            contents,
            target,
        ),
{
    let g0 = gens[done];
    lemma_next_log(files, gens, done, upto, Replayed::empty());
    lemma_rewrite_skips(files, read_from(gens, done), g0 as nat, upto as nat, rw, contents, target);
}

/// Generations that have no log add nothing to a scan.
proof fn lemma_rewrite_skips(
    files: Files,
    from: nat,
    to: nat,
    upto: nat,
    rw: Rewritten,
    contents: Map<Seq<char>, Seq<char>>,
    target: u64,
)
    requires
        from <= to <= upto + 1,
        upto <= u64::MAX,
        forall|g: u64| from <= g < to ==> !files.contains_key((g, LogFileType::Blessed)),
    ensures
        rewrite_from(files, from, upto, rw, contents, target) == rewrite_from(
            files,
            to,
            upto,
            rw,
            contents,
            target,
        ),
    decreases to - from,
{
    if from < to {
        assert(!files.contains_key((from as u64, LogFileType::Blessed)));
        lemma_rewrite_skips(files, from + 1, to, upto, rw, contents, target);
    }
}

/// What holds while a compaction that began in the state `start` rewrites
/// records, with `rw` what it has done so far: the state `s` is what
/// [`rewriting`] says, its index is that of `rw`, and the temporary file of
/// the target holds the bytes of `rw`.
pub open spec fn rewriting_exactly(s: StoreState, start: StoreState, rw: Rewritten) -> bool {
    &&& rewriting(s, start, rw.moved, rw.handled)
    &&& s.index == rw.index
    &&& s.files[(start.target(), LogFileType::Temporary)] == rw.log
}

/// What holds while a compaction that began in the state `start` rewrites
/// records: `s` is the state now, `moved` the keys whose records were written
/// to the target, `handled` the keys that the scan has met.
pub open spec fn rewriting(
    s: StoreState,
    start: StoreState,
    moved: Set<Seq<char>>,
    handled: Set<Seq<char>>,
) -> bool {
    let target = start.target();
    let successor = start.successor();
    &&& start.wf()
    &&& start.generation <= u64::MAX - 2
    &&& s.wf()
    &&& s.generation == successor
    &&& s.wasted == start.wasted
    &&& s.readers == start.prepared().readers
    &&& s.files.dom() == start.prepared().files.dom()
    &&& forall|f: (u64, LogFileType)| #[trigger]
        s.files.contains_key(f) && f != (target, LogFileType::Temporary) ==> s.files[f]
            == start.prepared().files[f]
    &&& s.index.dom() == start.index.dom()
    &&& s.contents() == start.contents()
    &&& moved.finite()
    &&& moved.subset_of(s.index.dom())
    &&& moved.subset_of(handled)
    &&& forall|key: Seq<char>| #[trigger]
        s.index.contains_key(key) ==> if moved.contains(key) {
            s.index[key].generation == target
        } else {
            s.index[key] == start.index[key]
        }
    &&& whole_records(s.files[(target, LogFileType::Temporary)], 0)
    &&& replay_log(s.files[(target, LogFileType::Temporary)], target, 0, Replayed::empty()) == Ok::<
        Replayed,
        KvsError,
    >(Replayed { index: s.index.restrict(moved), wasted: 0 })
}

/// A compaction that is prepared has rewritten nothing yet.
pub proof fn lemma_prepared(start: StoreState)
    requires
        start.wf(),
        start.generation <= u64::MAX - 2,
    ensures
        rewriting(start.prepared(), start, Set::empty(), Set::empty()),
{
    let s = start.prepared();
    let target = start.target();
    assert forall|key: Seq<char>| #[trigger] s.index.contains_key(key) implies entry_readable(
        s.files,
        s.readers,
        key,
        s.index[key],
    ) && entry_value(s.files, s.readers, s.index[key]) == entry_value(
        start.files,
        start.readers,
        start.index[key],
    ) by {
        let entry = start.index[key];
        assert(entry_readable(start.files, start.readers, key, entry));
        assert(start.readers.contains_key(entry.generation));
    }
    assert(s.contents() =~= start.contents());
    assert forall|g: u64| #[trigger] s.readers.contains_key(g) implies g <= s.generation
        && s.files.contains_key((g, s.readers[g])) by {
        if g != target && g != start.successor() {
            assert(start.readers.contains_key(g));
        }
    }
    assert forall|g: u64| #[trigger]
        s.files.contains_key((g, LogFileType::Blessed)) implies g <= s.generation
        && s.readers.contains_key(g) && s.readers[g] == LogFileType::Blessed by {
        if g != start.successor() {
            assert(start.files.contains_key((g, LogFileType::Blessed)));
        }
    }
    assert(s.index.restrict(Set::empty()) =~= Map::<Seq<char>, LogEntry>::empty());
    assert(crate::command::decode_at(Seq::<u8>::empty(), 0) is EndOfStream);
}

/// Meeting a key that is not rewritten, be it because it was handled before
/// or because it is not live, changes nothing but the set of handled keys.
pub proof fn lemma_rewrite_skips_key(
    s: StoreState,
    start: StoreState,
    moved: Set<Seq<char>>,
    handled: Set<Seq<char>>,
    key: Seq<char>,
)
    requires
        rewriting(s, start, moved, handled),
    ensures
        rewriting(s, start, moved, handled.insert(key)),
{
}

/// Rewriting the record of a live key that was not handled keeps the store
/// sound and its contents as they were, and adds the key to the keys that
/// were moved.
pub proof fn lemma_rewrite_moves_key(
    s: StoreState,
    start: StoreState,
    moved: Set<Seq<char>>,
    handled: Set<Seq<char>>,
    key: Seq<char>,
    value: Seq<char>,
)
    requires
        rewriting(s, start, moved, handled),
        s.index.contains_key(key),
        !handled.contains(key),
        value == s.contents()[key],
        (CommandView::SetValue { key, value }).encodable(),
        (CommandView::SetValue { key, value }).estimated_bytes() <= usize::MAX,
        s.files[(start.target(), LogFileType::Temporary)].len() <= u64::MAX,
    ensures
        rewriting(
            s.with_rewritten(start.target(), key, value),
            start,
            moved.insert(key),
            handled.insert(key),
        ),
        s.with_rewritten(start.target(), key, value).index == s.index.insert(
            key,
            entry_for(
                CommandView::SetValue { key, value },
                start.target(),
                s.files[(start.target(), LogFileType::Temporary)].len(),
            ),
        ),
        !moved.contains(key),
{
    let target = start.target();
    let command = CommandView::SetValue { key, value };
    let file = s.files[(target, LogFileType::Temporary)];
    let entry = entry_for(command, target, file.len());
    let t = s.with_rewritten(target, key, value);
    assert(s.index[key].generation <= start.generation) by {
        assert(start.index.contains_key(key));
    }
    assert(t.index == s.index.insert(key, entry));
    lemma_decode_encoded(file, command, Seq::empty());
    assert(file + command.encoding() + Seq::<u8>::empty() =~= t.files[(
        target,
        LogFileType::Temporary,
    )]);
    assert(s.readers[target] == LogFileType::Temporary);
    assert forall|k: Seq<char>| #[trigger] t.index.contains_key(k) implies entry_readable(
        t.files,
        t.readers,
        k,
        t.index[k],
    ) && t.index[k].generation <= t.generation && entry_value(t.files, t.readers, t.index[k])
        == s.contents()[k] by {
        if k != key {
            let e = s.index[k];
            assert(entry_readable(s.files, s.readers, k, e));
            if e.generation == target {
                lemma_append_keeps_entry(file, command.encoding(), k, e);
            }
        }
    }
    assert(t.contents() =~= s.contents());
    assert forall|g: u64| #[trigger] t.readers.contains_key(g) implies g <= t.generation
        && t.files.contains_key((g, t.readers[g])) by {
        assert(s.readers.contains_key(g));
    }
    assert forall|g: u64| #[trigger]
        t.files.contains_key((g, LogFileType::Blessed)) implies g <= t.generation
        && t.readers.contains_key(g) && t.readers[g] == LogFileType::Blessed by {
        assert(s.files.contains_key((g, LogFileType::Blessed)));
    }
    assert(t.files.dom() =~= s.files.dom());
    assert(t.index.dom() =~= s.index.dom());
    lemma_replay_appended(file, target, 0, Replayed::empty(), command);
    assert(t.index.restrict(moved.insert(key)) =~= s.index.restrict(moved).insert(key, entry));
    assert(!s.index.restrict(moved).contains_key(key));
}

/// Whether `g` is among the first `upto` entries of `gens`.
pub open spec fn listed_before(gens: Seq<u64>, upto: int, g: u64) -> bool {
    exists|j: int| 0 <= j < upto && #[trigger] gens[j] == g
}

/// What holds while a compaction retires the old logs `gens`, of which the
/// first `done` are deleted: `s` is the state now, `b` the state when the
/// target was blessed.
pub open spec fn retiring(s: StoreState, b: StoreState, gens: Seq<u64>, done: int) -> bool {
    &&& s.index == b.index
    &&& s.generation == b.generation
    &&& s.wasted == b.wasted
    &&& forall|f: (u64, LogFileType)| #[trigger]
        s.files.contains_key(f) <==> b.files.contains_key(f) && !(f.1 == LogFileType::Blessed
            && listed_before(gens, done, f.0))
    &&& forall|f: (u64, LogFileType)| #[trigger]
        s.files.contains_key(f) ==> s.files[f] == b.files[f]
    &&& forall|g: u64| #[trigger]
        s.readers.contains_key(g) <==> b.readers.contains_key(g) && !listed_before(gens, done, g)
    &&& forall|g: u64| #[trigger] s.readers.contains_key(g) ==> s.readers[g] == b.readers[g]
}

/// Once every live key is moved, blessing the target keeps the store sound
/// and its contents as they were; every entry then points into the log of
/// the target, which holds the live records and nothing else.
pub proof fn lemma_blessed(
    s: StoreState,
    start: StoreState,
    moved: Set<Seq<char>>,
    handled: Set<Seq<char>>,
)
    requires
        rewriting(s, start, moved, handled),
        moved == s.index.dom(),
    ensures
        s.blessed(start.target()).wf(),
        s.blessed(start.target()).contents() == start.contents(),
        forall|key: Seq<char>| #[trigger]
            s.index.contains_key(key) ==> s.index[key].generation == start.target(),
        replay_log(
            s.blessed(start.target()).files[(start.target(), LogFileType::Blessed)],
            start.target(),
            0,
            Replayed::empty(),
        ) == Ok::<Replayed, KvsError>(Replayed { index: s.index, wasted: 0 }),
        !s.files.contains_key((start.target(), LogFileType::Blessed)),
{
    let target = start.target();
    let b = s.blessed(target);
    assert(s.index.restrict(moved) =~= s.index);
    assert(!s.files.contains_key((target, LogFileType::Blessed))) by {
        if s.files.contains_key((target, LogFileType::Blessed)) {
            assert(start.prepared().files.contains_key((target, LogFileType::Blessed)));
            assert(start.files.contains_key((target, LogFileType::Blessed)));
        }
    }
    assert forall|key: Seq<char>| #[trigger] b.index.contains_key(key) implies entry_readable(
        b.files,
        b.readers,
        key,
        b.index[key],
    ) && b.index[key].generation <= b.generation && entry_value(b.files, b.readers, b.index[key])
        == s.contents()[key] by {
        assert(moved.contains(key));
        assert(entry_readable(s.files, s.readers, key, s.index[key]));
    }
    assert(b.contents() =~= s.contents());
    assert forall|g: u64| #[trigger] b.readers.contains_key(g) implies g <= b.generation
        && b.files.contains_key((g, b.readers[g])) by {
        if g != target {
            assert(s.readers.contains_key(g));
        }
    }
    assert forall|g: u64| #[trigger]
        b.files.contains_key((g, LogFileType::Blessed)) implies g <= b.generation
        && b.readers.contains_key(g) && b.readers[g] == LogFileType::Blessed by {
        if g != target {
            assert(s.files.contains_key((g, LogFileType::Blessed)));
        }
    }
}

/// Deleting one more of the old logs, and closing its reader, keeps the
/// store sound and its contents as they were.
pub proof fn lemma_retire_step(
    s: StoreState,
    b: StoreState,
    start: StoreState,
    gens: Seq<u64>,
    done: int,
)
    requires
        start.wf(),
        start.generation <= u64::MAX - 2,
        lists_logs(start.files, gens),
        strictly_ascending(gens),
        0 <= done < gens.len(),
        b.wf(),
        forall|key: Seq<char>| #[trigger]
            b.index.contains_key(key) ==> b.index[key].generation == start.target(),
        b.generation == start.successor(),
        forall|g: u64| #[trigger]
            start.files.contains_key((g, LogFileType::Blessed)) ==> b.files.contains_key(
                (g, LogFileType::Blessed),
            ),
        retiring(s, b, gens, done),
        s.wf(),
        s.contents() == b.contents(),
    ensures
        s.files.contains_key((gens[done], LogFileType::Blessed)),
        retiring(s.retired(gens[done]), b, gens, done + 1),
        s.retired(gens[done]).wf(),
        s.retired(gens[done]).contents() == b.contents(),
{
    let g0 = gens[done];
    let t = s.retired(g0);
    assert(gens.contains(g0));
    assert(start.files.contains_key((g0, LogFileType::Blessed)));
    assert(g0 <= start.generation);
    assert(!listed_before(gens, done, g0)) by {
        if listed_before(gens, done, g0) {
            let j = choose|j: int| 0 <= j < done && #[trigger] gens[j] == g0;
            assert(gens[j] < gens[done]);
        }
    }
    assert(b.files.contains_key((g0, LogFileType::Blessed)));
    assert(s.files.contains_key((g0, LogFileType::Blessed)));
    assert forall|g: u64| listed_before(gens, done + 1, g) <==> listed_before(gens, done, g) || g
        == g0 by {
        if listed_before(gens, done + 1, g) {
            let j = choose|j: int| 0 <= j < done + 1 && #[trigger] gens[j] == g;
            if j < done {
                assert(listed_before(gens, done, g));
            }
        }
        if listed_before(gens, done, g) {
            let j = choose|j: int| 0 <= j < done && #[trigger] gens[j] == g;
            assert(0 <= j < done + 1 && gens[j] == g);
        }
        if g == g0 {
            assert(0 <= done < done + 1 && gens[done] == g);
        }
    }
    assert forall|f: (u64, LogFileType)| #[trigger]
        t.files.contains_key(f) <==> b.files.contains_key(f) && !(f.1 == LogFileType::Blessed
            && listed_before(gens, done + 1, f.0)) by {
        assert(s.files.contains_key(f) <==> b.files.contains_key(f) && !(f.1
            == LogFileType::Blessed && listed_before(gens, done, f.0)));
    }
    assert forall|g: u64| #[trigger]
        t.readers.contains_key(g) <==> b.readers.contains_key(g) && !listed_before(
            gens,
            done + 1,
            g,
        ) by {
        assert(s.readers.contains_key(g) <==> b.readers.contains_key(g) && !listed_before(
            gens,
            done,
            g,
        ));
    }
    assert forall|key: Seq<char>| #[trigger] t.index.contains_key(key) implies entry_readable(
        t.files,
        t.readers,
        key,
        t.index[key],
    ) && t.index[key].generation <= t.generation && entry_value(t.files, t.readers, t.index[key])
        == s.contents()[key] by {
        assert(entry_readable(s.files, s.readers, key, s.index[key]));
        assert(b.index.contains_key(key));
    }
    assert(t.contents() =~= s.contents());
    assert forall|g: u64| #[trigger] t.readers.contains_key(g) implies g <= t.generation
        && t.files.contains_key((g, t.readers[g])) by {
        assert(s.readers.contains_key(g));
        assert(s.files.contains_key((g, s.readers[g])));
    }
    assert forall|g: u64| #[trigger]
        t.files.contains_key((g, LogFileType::Blessed)) implies g <= t.generation
        && t.readers.contains_key(g) && t.readers[g] == LogFileType::Blessed by {
        assert(s.files.contains_key((g, LogFileType::Blessed)));
    }
}

/// A compaction that succeeded leaves a durable store, if it began in one
/// without temporary files.
pub proof fn lemma_compacted_durable(before: StoreState, after: StoreState)
    requires
        compacted(before, after),
        forall|g: u64| !(#[trigger] before.files.contains_key((g, LogFileType::Temporary))),
    ensures
        after.durable(),
{
    let target = before.target();
    let successor = before.successor();
    let st = Replayed { index: after.index, wasted: 0 };
    assert forall|g: u64| !(#[trigger] after.files.contains_key((g, LogFileType::Temporary))) by {
        assert(!before.files.contains_key((g, LogFileType::Temporary)));
    }
    assert(after.files.contains_key((target, LogFileType::Blessed)));
    assert(after.files.contains_key((successor, LogFileType::Blessed)));
    assert(crate::command::decode_at(Seq::<u8>::empty(), 0) is EndOfStream);
    assert forall|g: u64| #[trigger]
        after.files.contains_key((g, LogFileType::Blessed)) implies whole_records(
        after.files[(g, LogFileType::Blessed)],
        0,
    ) by {}
    assert forall|g: u64| 0 <= g < target implies !after.files.contains_key(
        (g, LogFileType::Blessed),
    ) by {}
    lemma_replay_skips(after.files, 0, target as nat, successor as nat, Replayed::empty());
    assert(replay_from(after.files, (successor + 1) as nat, successor as nat, st) == Ok::<
        Replayed,
        KvsError,
    >(st));
    assert(replay_from(after.files, successor as nat, successor as nat, st) == Ok::<
        Replayed,
        KvsError,
    >(st));
    assert(replay_from(after.files, target as nat, successor as nat, Replayed::empty()) == Ok::<
        Replayed,
        KvsError,
    >(st));
}

/// Whether every key that the scan has met and that is live was moved.
pub open spec fn reached(s: StoreState, moved: Set<Seq<char>>, handled: Set<Seq<char>>) -> bool {
    forall|key: Seq<char>| #[trigger]
        handled.contains(key) && s.index.contains_key(key) ==> moved.contains(key)
}

/// The generation to read from when the first `done` of the logs `gens` were
/// read.
pub open spec fn read_from(gens: Seq<u64>, done: int) -> nat {
    if done == 0 {
        0
    } else {
        (gens[done - 1] + 1) as nat
    }
}

/// Reading the logs from where the first `done` of them ended is reading the
/// next log and then going on behind it.
pub proof fn lemma_next_log(files: Files, gens: Seq<u64>, done: int, upto: u64, st: Replayed)
    requires
        strictly_ascending(gens),
        lists_logs(files, gens),
        0 <= done < gens.len(),
        gens[gens.len() - 1] == upto,
    ensures
        files.contains_key((gens[done], LogFileType::Blessed)),
        read_from(gens, done) <= gens[done] <= upto,
        forall|g: u64|
            read_from(gens, done) <= g < gens[done] ==> !files.contains_key(
                (g, LogFileType::Blessed),
            ),
        replay_from(files, read_from(gens, done), upto as nat, st) == match replay_log(
            files[(gens[done], LogFileType::Blessed)],
            gens[done],
            0,
            st,
        ) {
            Ok(after) => replay_from(files, read_from(gens, done + 1), upto as nat, after),
            Err(e) => Err(e),
        },
{
    let g0 = gens[done];
    let from = read_from(gens, done);
    assert(gens.contains(g0));
    if done > 0 {
        assert(gens[done - 1] < gens[done]);
    }
    if done < gens.len() - 1 {
        assert(gens[done] < gens[gens.len() - 1]);
    }
    assert forall|g: u64| from <= g < g0 implies !files.contains_key(
        (g, LogFileType::Blessed),
    ) by {
        if files.contains_key((g, LogFileType::Blessed)) {
            assert(gens.contains(g));
            let j = choose|j: int| 0 <= j < gens.len() && gens[j] == g;
            if j < done {
                assert(j < done - 1 ==> gens[j] < gens[done - 1]);
            } else {
                assert(j > done ==> gens[done] < gens[j]);
            }
        }
    }
    lemma_replay_skips(files, from, g0 as nat, upto as nat, st);
}

/// A compaction leaves a durable store durable.
pub proof fn lemma_compaction_keeps_durable(
    before: StoreState,
    after: StoreState,
    r: Result<(), KvsError>,
)
    requires
        before.durable(),
        compaction_result(before, after, r),
    ensures
        after.durable(),
        r is Err ==> before.wasted >= COMPACTION_BYTES_THRESHOLD && before.generation > u64::MAX
            - 2,
{
    if before.wasted >= COMPACTION_BYTES_THRESHOLD && before.generation <= u64::MAX - 2 {
        lemma_compacted_durable(before, after);
    }
}

/// What a compaction of the state `before` that succeeded has made: the log
/// of the target holds the live records and nothing else, the log of the
/// successor is empty and receives the writes, the older logs and their
/// readers are gone, and nothing counts as wasted.
pub open spec fn compacted(before: StoreState, after: StoreState) -> bool {
    let target = before.target();
    let successor = before.successor();
    &&& before.generation <= u64::MAX - 2
    &&& after.generation == successor
    &&& after.wasted == 0
    &&& forall|g: u64| #[trigger]
        after.files.contains_key((g, LogFileType::Blessed)) <==> g == target || g == successor
    &&& after.files[(successor, LogFileType::Blessed)] == Seq::<u8>::empty()
    &&& forall|g: u64| #[trigger]
        after.files.contains_key((g, LogFileType::Temporary)) <==> g != target
            && before.files.contains_key((g, LogFileType::Temporary))
    &&& forall|g: u64| #[trigger]
        after.files.contains_key((g, LogFileType::Temporary)) ==> after.files[(
            g,
            LogFileType::Temporary,
        )] == before.files[(g, LogFileType::Temporary)]
    &&& forall|g: u64| #[trigger]
        after.readers.contains_key(g) <==> g == target || g == successor || (
        before.readers.contains_key(g) && before.readers[g] == LogFileType::Temporary)
    &&& forall|g: u64| #[trigger]
        after.readers.contains_key(g) ==> after.readers[g] == (if g == target || g == successor {
            LogFileType::Blessed
        } else {
            LogFileType::Temporary
        })
    &&& after.index.dom() == before.index.dom()
    &&& forall|key: Seq<char>| #[trigger]
        after.index.contains_key(key) ==> after.index[key].generation == target
    &&& whole_records(after.files[(target, LogFileType::Blessed)], 0)
    &&& replay_log(after.files[(target, LogFileType::Blessed)], target, 0, Replayed::empty()) == Ok::<
        Replayed,
        KvsError,
    >(Replayed { index: after.index, wasted: 0 })
}

/// Once the target is blessed and every old log is retired, the compaction
/// has made what [`compacted`] describes.
pub proof fn lemma_retired_all(
    s: StoreState,
    pre: StoreState,
    start: StoreState,
    moved: Set<Seq<char>>,
    handled: Set<Seq<char>>,
    gens: Seq<u64>,
)
    requires
        rewriting(pre, start, moved, handled),
        moved == pre.index.dom(),
        lists_logs(start.files, gens),
        retiring(s, pre.blessed(start.target()), gens, gens.len() as int),
    ensures
        compacted(start, s),
{
    let target = start.target();
    let successor = start.successor();
    let b = pre.blessed(target);
    lemma_blessed(pre, start, moved, handled);
    assert forall|g: u64| listed_before(gens, gens.len() as int, g) <==> start.files.contains_key(
        (g, LogFileType::Blessed),
    ) by {
        if listed_before(gens, gens.len() as int, g) {
            let j = choose|j: int| 0 <= j < gens.len() && #[trigger] gens[j] == g;
            assert(gens.contains(g));
        }
        if start.files.contains_key((g, LogFileType::Blessed)) {
            assert(gens.contains(g));
            let j = choose|j: int| 0 <= j < gens.len() && gens[j] == g;
            assert(0 <= j < gens.len() && gens[j] == g);
        }
    }
    assert forall|g: u64| #[trigger]
        s.files.contains_key((g, LogFileType::Blessed)) <==> g == target || g == successor by {
        let f = (g, LogFileType::Blessed);
        assert(s.files.contains_key(f) <==> b.files.contains_key(f) && !(f.1
            == LogFileType::Blessed && listed_before(gens, gens.len() as int, f.0)));
        assert(pre.files.contains_key(f) <==> start.prepared().files.contains_key(f));
        if start.files.contains_key(f) {
            assert(g <= start.generation);
        }
    }
    assert(s.files[(successor, LogFileType::Blessed)] == Seq::<u8>::empty()) by {
        let f = (successor, LogFileType::Blessed);
        assert(s.files.contains_key(f));
        assert(pre.files.contains_key(f));
    }
    assert forall|g: u64| #[trigger]
        s.files.contains_key((g, LogFileType::Temporary)) <==> g != target
            && start.files.contains_key((g, LogFileType::Temporary)) by {
        let f = (g, LogFileType::Temporary);
        assert(s.files.contains_key(f) <==> b.files.contains_key(f) && !(f.1
            == LogFileType::Blessed && listed_before(gens, gens.len() as int, f.0)));
        assert(pre.files.contains_key(f) <==> start.prepared().files.contains_key(f));
    }
    assert forall|g: u64| #[trigger]
        s.files.contains_key((g, LogFileType::Temporary)) implies s.files[(
        g,
        LogFileType::Temporary,
    )] == start.files[(g, LogFileType::Temporary)] by {
        let f = (g, LogFileType::Temporary);
        assert(pre.files.contains_key(f));
    }
    assert forall|g: u64| #[trigger]
        s.readers.contains_key(g) <==> g == target || g == successor || (
        start.readers.contains_key(g) && start.readers[g] == LogFileType::Temporary) by {
        assert(s.readers.contains_key(g) <==> b.readers.contains_key(g) && !listed_before(
            gens,
            gens.len() as int,
            g,
        ));
        if start.readers.contains_key(g) {
            assert(start.files.contains_key((g, start.readers[g])));
        }
        if start.files.contains_key((g, LogFileType::Blessed)) {
            assert(g <= start.generation);
            assert(start.readers[g] == LogFileType::Blessed);
        }
    }
    assert(s.files[(target, LogFileType::Blessed)] == b.files[(target, LogFileType::Blessed)]) by {
        assert(s.files.contains_key((target, LogFileType::Blessed)));
    }
}

/// What a compaction of the state `before` has left when it found that the
/// scan of the old logs did not reach every live key: the old logs are all
/// there, the target is a temporary file still, and the successor receives
/// the writes.
pub open spec fn abandoned(before: StoreState, after: StoreState) -> bool {
    let target = before.target();
    let successor = before.successor();
    &&& before.generation <= u64::MAX - 2
    &&& after.generation == successor
    &&& after.wasted == before.wasted
    &&& after.readers == before.prepared().readers
    &&& after.files.dom() == before.prepared().files.dom()
    &&& forall|f: (u64, LogFileType)| #[trigger]
        after.files.contains_key(f) && f != (target, LogFileType::Temporary) ==> after.files[f]
            == before.prepared().files[f]
    &&& after.index.dom() == before.index.dom()
}

/// The changes that delete the logs of the generations `from` to `upto` in
/// `files`, in ascending order.
pub open spec fn retire_ops(files: Files, from: nat, upto: nat) -> Seq<FileOpView>
    decreases upto + 1 - from,
{
    if from > upto {
        Seq::empty()
    } else if files.contains_key((from as u64, LogFileType::Blessed)) {
        seq![FileOpView::Remove { generation: from as u64, kind: LogFileType::Blessed }]
            + retire_ops(files, from + 1, upto)
    } else {
        retire_ops(files, from + 1, upto)
    }
}

/// Deleting the logs from where the first `done` of them ended is deleting
/// the next log and then going on behind it.
pub proof fn lemma_next_retire(files: Files, gens: Seq<u64>, done: int, upto: u64)
    requires
        strictly_ascending(gens),
        lists_logs(files, gens),
        0 <= done < gens.len(),
        gens[gens.len() - 1] == upto,
    ensures
        retire_ops(files, read_from(gens, done), upto as nat) == seq![
            FileOpView::Remove { generation: gens[done], kind: LogFileType::Blessed },
        ] + retire_ops(files, read_from(gens, done + 1), upto as nat),
{
    let g0 = gens[done];
    lemma_next_log(files, gens, done, upto, Replayed::empty());
    lemma_retire_skips(files, read_from(gens, done), g0 as nat, upto as nat);
}

/// Generations that have no log have none to delete.
proof fn lemma_retire_skips(files: Files, from: nat, to: nat, upto: nat)
    requires
        from <= to <= upto + 1,
        upto <= u64::MAX,
        forall|g: u64| from <= g < to ==> !files.contains_key((g, LogFileType::Blessed)),
    ensures
        retire_ops(files, from, upto) == retire_ops(files, to, upto),
    decreases to - from,
{
    if from < to {
        assert(!files.contains_key((from as u64, LogFileType::Blessed)));
        lemma_retire_skips(files, from + 1, to, upto);
    }
}

/// The changes that the check for a compaction, made in the state `before`,
/// makes to the directory, in order: none where no compaction runs;
/// otherwise the two fresh files are made, the live records are written to
/// the target one by one, and, where the scan has reached every live key,
/// the target is blessed and then the old logs are deleted in ascending
/// order.
pub open spec fn compaction_ops(before: StoreState) -> Seq<FileOpView> {
    let rw = before.rewritten();
    if before.wasted < COMPACTION_BYTES_THRESHOLD || before.generation > u64::MAX - 2 {
        Seq::empty()
    } else {
        seq![
            FileOpView::Create { generation: before.target(), kind: LogFileType::Temporary },
            FileOpView::Create { generation: before.successor(), kind: LogFileType::Blessed },
        ] + rw.ops + (if rw.moved == before.index.dom() {
            seq![FileOpView::Bless { generation: before.target() }] + retire_ops(
                before.files,
                0,
                before.generation as nat,
            )
        } else {
            Seq::empty()
        })
    }
}

/// What the check for a compaction, made in the state `before`, returns and
/// leaves.
///
/// Below the threshold nothing happens. At or above it a compaction runs. It
/// fails at once, and changes nothing, where the two generations it needs do
/// not fit in 64 bits. Otherwise it scans the old logs and rewrites the live
/// records, as [`StoreState::rewritten`] says. Where the scan has reached
/// every live key the compaction succeeds, which is so in every durable
/// store; where it has not, the compaction fails and retires no log.
pub open spec fn compaction_result(before: StoreState, after: StoreState, r: Result<(), KvsError>) -> bool {
    let rw = before.rewritten();
    if before.wasted < COMPACTION_BYTES_THRESHOLD {
        r is Ok && after == before
    } else if before.generation > u64::MAX - 2 {
        r == Err::<(), KvsError>(KvsError::CompactionFailed(CompactionCause::GenerationsExhausted))
            && after == before
    } else if rw.moved == before.index.dom() {
        &&& r is Ok
        &&& compacted(before, after)
        &&& after.index == rw.index
        &&& after.files[(before.target(), LogFileType::Blessed)] == rw.log
    } else {
        &&& r == Err::<(), KvsError>(
            KvsError::CompactionFailed(CompactionCause::UnreachableRecords),
        )
        &&& abandoned(before, after)
        &&& after.index == rw.index
        &&& after.files[(before.target(), LogFileType::Temporary)] == rw.log
        &&& !before.durable()
    }
}

} // verus!
