//! What holds of the store whatever the keys, the values and the order of
//! the calls.
//!
//! The contents of a store are the view of [`crate::KvStore`]: a map from
//! each live key to its value. `set` inserts into it and `remove` removes
//! from it; that is what the two functions ensure. The laws here say what
//! follows for series of calls, for a store that is closed and opened again,
//! and for a compaction.

use crate::command::CommandView;
use crate::command::Decoding;
use crate::command::decode_at;
use crate::command::lemma_decode_cut;
use crate::command::lemma_decode_same_bytes;
use crate::command::lemma_decoded_bytes;
use crate::compaction::compacted;
use crate::compaction::compaction_result;
use crate::error::KvsError;
use crate::generation::LogFileType;
use crate::logdir::Files;
use crate::replay::Replayed;
use crate::replay::apply_record;
use crate::replay::replay_from;
use crate::replay::replay_log;
use crate::replay::whole_records;
use crate::state::COMPACTION_BYTES_THRESHOLD;
use crate::state::StoreState;
use crate::state::lemma_remove_keeps_wf;
use crate::state::lemma_set_keeps_wf;
use crate::store::has_logs;
use crate::store::is_top;
use crate::store::lemma_opened_generation;
use crate::store::opened_files;
use crate::store::opened_generation;
use crate::store::opened_readers;
use crate::store::opened_state;
use crate::store::opened_store;
use vstd::prelude::*;

verus! {

/// The contents after one call: `set` for a `SetValue`, `remove` for a
/// `Remove`. A `remove` of a key that is not live fails and changes nothing.
pub open spec fn contents_step(
    contents: Map<Seq<char>, Seq<char>>,
    op: CommandView,
) -> Map<Seq<char>, Seq<char>> {
    match op {
        CommandView::SetValue { key, value } => contents.insert(key, value),
        CommandView::Remove { key } => contents.remove(key),
    }
}

/// The contents after a series of calls, made in order.
pub open spec fn contents_after(
    contents: Map<Seq<char>, Seq<char>>,
    ops: Seq<CommandView>,
) -> Map<Seq<char>, Seq<char>>
    decreases ops.len(),
{
    if ops.len() == 0 {
        contents
    } else {
        contents_step(contents_after(contents, ops.drop_last()), ops.last())
    }
}

/// Each call changes the contents by one step: a `set` and a `remove` of a
/// live key leave a sound store whose contents are those of
/// [`contents_step`], and a `remove` of a key that is not live, which fails
/// and leaves the store as it was, is a step that changes nothing.
pub proof fn law_calls_are_steps(s: StoreState, op: CommandView)
    requires
        s.wf(),
        op.encodable(),
        op.estimated_bytes() <= usize::MAX,
        s.active_log().len() <= u64::MAX,
    ensures
        op matches CommandView::SetValue { key, value } ==> s.with_set(key, value).wf()
            && s.with_set(key, value).contents() == contents_step(s.contents(), op),
        op matches CommandView::Remove { key } ==> (if s.contents().contains_key(key) {
            s.with_remove(key).wf() && s.with_remove(key).contents() == contents_step(
                s.contents(),
                op,
            )
        } else {
            s.contents() == contents_step(s.contents(), op)
        }),
{
    match op {
        CommandView::SetValue { key, value } => {
            lemma_set_keeps_wf(s, key, value);
        },
        CommandView::Remove { key } => {
            if s.contents().contains_key(key) {
                lemma_remove_keeps_wf(s, key);
            } else {
                assert(s.contents().remove(key) =~= s.contents());
            }
        },
    }
}

/// Whether the call at `at` is the last of `ops` that names `key`.
pub open spec fn is_last_on(ops: Seq<CommandView>, key: Seq<char>, at: int) -> bool {
    &&& 0 <= at < ops.len()
    &&& ops[at].key() == key
    &&& forall|later: int| at < later < ops.len() ==> (#[trigger] ops[later]).key() != key
}

/// After any series of calls on a fresh store, a key has the value of the
/// last `set` of it, unless a `remove` of it followed; a key that was never
/// set, or was removed after it was last set, has none.
pub proof fn law_last_write_wins(ops: Seq<CommandView>, key: Seq<char>)
    ensures
        contents_after(Map::empty(), ops).contains_key(key) <==> exists|at: int|
            is_last_on(ops, key, at) && #[trigger] ops[at] is SetValue,
        forall|at: int|
            is_last_on(ops, key, at) && #[trigger] ops[at] is SetValue ==> contents_after(
                Map::empty(),
                ops,
            )[key] == ops[at]->value,
    decreases ops.len(),
{
    if ops.len() > 0 {
        let earlier = ops.drop_last();
        let last = ops.len() - 1;
        law_last_write_wins(earlier, key);
        if ops.last().key() == key {
            assert(is_last_on(ops, key, last));
            assert forall|at: int| is_last_on(ops, key, at) implies at == last by {
                if at < last {
                    assert(ops[last].key() != key);
                }
            }
        } else {
            assert forall|at: int| is_last_on(ops, key, at) <==> is_last_on(earlier, key, at) by {
                if is_last_on(ops, key, at) {
                    assert(at != last);
                    assert forall|later: int| at < later < earlier.len() implies (
                    #[trigger] earlier[later]).key() != key by {
                        assert(ops[later].key() != key);
                    }
                }
                if is_last_on(earlier, key, at) {
                    assert forall|later: int| at < later < ops.len() implies (
                    #[trigger] ops[later]).key() != key by {
                        if later < last {
                            assert(earlier[later].key() != key);
                        }
                    }
                }
            }
            if exists|at: int| is_last_on(earlier, key, at) && #[trigger] earlier[at] is SetValue {
                let at = choose|at: int|
                    is_last_on(earlier, key, at) && #[trigger] earlier[at] is SetValue;
                assert(is_last_on(ops, key, at) && ops[at] is SetValue);
            }
            if exists|at: int| is_last_on(ops, key, at) && #[trigger] ops[at] is SetValue {
                let at = choose|at: int| is_last_on(ops, key, at) && #[trigger] ops[at] is SetValue;
                assert(is_last_on(earlier, key, at) && earlier[at] is SetValue);
            }
            assert forall|at: int|
                is_last_on(ops, key, at) && #[trigger] ops[at] is SetValue implies contents_after(
                Map::empty(),
                ops,
            )[key] == ops[at]->value by {
                assert(is_last_on(earlier, key, at) && earlier[at] is SetValue);
            }
        }
    }
}

/// A key that no call of a series sets is not live after the series: a
/// `remove` of it then fails with `KeyNotFound`.
pub proof fn law_never_set_is_absent(ops: Seq<CommandView>, key: Seq<char>)
    requires
        forall|at: int| 0 <= at < ops.len() && (#[trigger] ops[at]).key() == key ==> ops[at] is Remove,
    ensures
        !contents_after(Map::empty(), ops).contains_key(key),
{
    law_last_write_wins(ops, key);
}

/// `set(k, v)` then `get(k)` gives `v`.
pub proof fn law_set_then_get(contents: Map<Seq<char>, Seq<char>>, key: Seq<char>, value: Seq<char>)
    ensures
        contents.insert(key, value).contains_key(key),
        contents.insert(key, value)[key] == value,
{
}

/// `set(k, v1)`, `set(k, v2)`, then `get(k)` gives `v2`.
pub proof fn law_second_set_wins(
    contents: Map<Seq<char>, Seq<char>>,
    key: Seq<char>,
    first: Seq<char>,
    second: Seq<char>,
)
    ensures
        contents.insert(key, first).insert(key, second)[key] == second,
        contents.insert(key, first).insert(key, second) == contents.insert(key, second),
{
    assert(contents.insert(key, first).insert(key, second) =~= contents.insert(key, second));
}

/// `set(k, v)`, `remove(k)`, then `get(k)` gives nothing.
pub proof fn law_set_then_remove(
    contents: Map<Seq<char>, Seq<char>>,
    key: Seq<char>,
    value: Seq<char>,
)
    ensures
        !contents.insert(key, value).remove(key).contains_key(key),
        contents.insert(key, value).remove(key) == contents.remove(key),
{
    assert(contents.insert(key, value).remove(key) =~= contents.remove(key));
}

/// A second `set(k, v)` with the same value changes nothing that `get` can
/// see.
pub proof fn law_same_set_twice(
    contents: Map<Seq<char>, Seq<char>>,
    key: Seq<char>,
    value: Seq<char>,
)
    ensures
        contents.insert(key, value).insert(key, value) == contents.insert(key, value),
{
    assert(contents.insert(key, value).insert(key, value) =~= contents.insert(key, value));
}


/// Opening a store on an empty directory gives a store without contents,
/// which writes to generation 1.
pub proof fn law_open_empty()
    ensures
        opened_state(Files::empty()) == Ok::<Replayed, KvsError>(Replayed::empty()),
        opened_generation(Files::empty()) == 1,
        opened_store(Files::empty()).contents() == Map::<Seq<char>, Seq<char>>::empty(),
        opened_store(Files::empty()).wf(),
        opened_store(Files::empty()).durable(),
{
    let files = opened_files(Files::empty());
    let log = (1u64, LogFileType::Blessed);
    assert(!has_logs(Files::empty()));
    assert(files == Files::empty().insert(log, Seq::empty()));
    assert(is_top(files, 1));
    let top = opened_generation(Files::empty());
    assert(is_top(files, top));
    assert(top == 1);
    assert(decode_at(Seq::<u8>::empty(), 0) is EndOfStream);
    assert(!files.contains_key((0, LogFileType::Blessed)));
    assert(replay_from(files, 2, 1, Replayed::empty()) == Ok::<Replayed, KvsError>(
        Replayed::empty(),
    ));
    assert(replay_from(files, 1, 1, Replayed::empty()) == Ok::<Replayed, KvsError>(
        Replayed::empty(),
    ));
    assert(replay_from(files, 0, 1, Replayed::empty()) == Ok::<Replayed, KvsError>(
        Replayed::empty(),
    ));
    let s = opened_store(Files::empty());
    assert(s.contents() =~= Map::<Seq<char>, Seq<char>>::empty());
    assert(s.index.dom() =~= Set::<Seq<char>>::empty());
}

/// Closing a durable store and opening a store on its directory gives the
/// same store again: the same index, the same count of wasted bytes, the
/// same active generation and the same readers, and so the same value for
/// every key.
pub proof fn law_reopen(s: StoreState)
    requires
        s.wf(),
        s.durable(),
    ensures
        opened_state(s.files) is Ok,
        opened_store(s.files) == s,
        opened_store(s.files).contents() == s.contents(),
{
    assert(s.files.contains_key((s.generation, LogFileType::Blessed)));
    assert(has_logs(s.files));
    assert(is_top(s.files, s.generation));
    let top = opened_generation(s.files);
    assert(is_top(s.files, top));
    assert(top == s.generation);
    assert(opened_readers(s.files) =~= s.readers) by {
        assert forall|g: u64| s.readers.contains_key(g) implies #[trigger] s.files.contains_key(
            (g, LogFileType::Blessed),
        ) && s.readers[g] == LogFileType::Blessed by {
            assert(s.files.contains_key((g, s.readers[g])));
            assert(!s.files.contains_key((g, LogFileType::Temporary)));
        }
    }
}

/// A value that was set in a durable store is there when the store is
/// closed and a store is opened on its directory.
pub proof fn law_set_survives_reopen(
    before: StoreState,
    after: StoreState,
    key: Seq<char>,
    value: Seq<char>,
)
    requires
        after.wf(),
        after.durable(),
        after.contents() == before.contents().insert(key, value),
    ensures
        opened_state(after.files) is Ok,
        opened_store(after.files).contents().contains_key(key),
        opened_store(after.files).contents()[key] == value,
{
    law_reopen(after);
}

/// In a sound store every entry of the index points into a generation that
/// has a reader; and where the directory holds no temporary file, the
/// generations that have a reader are exactly those that have a log, so that
/// there are as many readers as logs.
pub proof fn law_readers_match_logs(s: StoreState)
    requires
        s.wf(),
    ensures
        forall|key: Seq<char>| #[trigger]
            s.index.contains_key(key) ==> s.readers.contains_key(s.index[key].generation),
        (forall|g: u64| !(#[trigger] s.files.contains_key((g, LogFileType::Temporary))))
            ==> s.readers.dom() == Set::new(
            |g: u64| s.files.contains_key((g, LogFileType::Blessed)),
        ),
{
    assert forall|key: Seq<char>| #[trigger]
        s.index.contains_key(key) implies s.readers.contains_key(s.index[key].generation) by {
        assert(crate::state::entry_readable(s.files, s.readers, key, s.index[key]));
    }
    if forall|g: u64| !(#[trigger] s.files.contains_key((g, LogFileType::Temporary))) {
        assert forall|g: u64| s.readers.contains_key(g) implies #[trigger] s.files.contains_key(
            (g, LogFileType::Blessed),
        ) by {
            assert(s.files.contains_key((g, s.readers[g])));
            assert(!s.files.contains_key((g, LogFileType::Temporary)));
        }
        assert(s.readers.dom() =~= Set::new(
            |g: u64| s.files.contains_key((g, LogFileType::Blessed)),
        ));
    }
}

/// A compaction that succeeded has replaced the logs in full: no generation
/// that had a log before has one after, nothing counts as wasted, and no
/// temporary file is left if there was none before.
pub proof fn law_compaction_replaces_logs(before: StoreState, after: StoreState)
    requires
        before.wf(),
        compacted(before, after),
    ensures
        forall|g: u64|
            !(before.files.contains_key((g, LogFileType::Blessed)) && #[trigger] after.files.contains_key(
                (g, LogFileType::Blessed),
            )),
        after.wasted == 0,
        (forall|g: u64| !(#[trigger] before.files.contains_key((g, LogFileType::Temporary))))
            ==> (forall|g: u64| !(#[trigger] after.files.contains_key((g, LogFileType::Temporary)))),
{
    assert forall|g: u64|
        !(before.files.contains_key((g, LogFileType::Blessed)) && #[trigger] after.files.contains_key(
            (g, LogFileType::Blessed),
        )) by {
        if before.files.contains_key((g, LogFileType::Blessed)) {
            assert(g <= before.generation);
        }
    }
    if forall|g: u64| !(#[trigger] before.files.contains_key((g, LogFileType::Temporary))) {
        assert forall|g: u64| !(#[trigger] after.files.contains_key(
            (g, LogFileType::Temporary),
        )) by {
            assert(!before.files.contains_key((g, LogFileType::Temporary)));
        }
    }
}

/// Whenever a write was followed by a compaction that succeeded, nothing
/// counts as wasted.
pub proof fn law_compaction_resets_waste(
    before: StoreState,
    after: StoreState,
    r: Result<(), KvsError>,
)
    requires
        compaction_result(before, after, r),
        before.wasted >= COMPACTION_BYTES_THRESHOLD,
        r is Ok,
    ensures
        after.wasted == 0,
{
}

/// Generations only grow: after the check for a compaction the active
/// generation is no older than before, and every log that is new is of a
/// generation newer than all that were there.
pub proof fn law_generations_grow(before: StoreState, after: StoreState, r: Result<(), KvsError>)
    requires
        before.wf(),
        compaction_result(before, after, r),
    ensures
        after.generation >= before.generation,
        forall|g: u64|
            #[trigger] after.files.contains_key((g, LogFileType::Blessed))
                && !before.files.contains_key((g, LogFileType::Blessed)) ==> g > before.generation,
{
    assert forall|g: u64|
        #[trigger] after.files.contains_key((g, LogFileType::Blessed))
            && !before.files.contains_key((g, LogFileType::Blessed)) implies g
        > before.generation by {
        if before.wasted >= COMPACTION_BYTES_THRESHOLD && before.generation <= u64::MAX - 2 {
            if r is Err {
                assert(before.prepared().files.contains_key((g, LogFileType::Blessed)));
            }
        }
    }
}

/// Between compactions the count of wasted bytes never falls: a write that
/// is not followed by a compaction leaves it as it was or greater.
pub proof fn law_waste_grows(s: StoreState, op: CommandView)
    ensures
        op matches CommandView::SetValue { key, value } ==> s.with_set(key, value).wasted
            >= s.wasted,
        op matches CommandView::Remove { key } ==> s.with_remove(key).wasted >= s.wasted,
{
}

/// A log whose last record was cut short, by one byte or by more, is read
/// as the log without that record: the whole records are all applied and
/// the part of a record at the end is passed over without error.
pub proof fn law_cut_tail_is_discarded(
    bytes: Seq<u8>,
    generation: u64,
    pos: nat,
    st: Replayed,
    command: CommandView,
    cut: int,
)
    requires
        whole_records(bytes, pos),
        pos <= bytes.len(),
        command.encodable(),
        0 <= cut < command.encoding().len(),
    ensures
        replay_log(bytes + command.encoding().subrange(0, cut), generation, pos, st) == replay_log(
            bytes,
            generation,
            pos,
            st,
        ),
    decreases bytes.len() - pos,
{
    let part = command.encoding().subrange(0, cut);
    let longer = bytes + part;
    match decode_at(bytes, pos as int) {
        Decoding::Record { command: found, next } => {
            lemma_decoded_bytes(bytes, pos as int);
            assert(longer.subrange(pos as int, next) =~= bytes.subrange(pos as int, next));
            lemma_decode_same_bytes(bytes, longer, pos as int);
            match apply_record(st, found, generation, pos) {
                Ok(after) => {
                    law_cut_tail_is_discarded(bytes, generation, next as nat, after, command, cut);
                },
                Err(e) => {},
            }
        },
        Decoding::EndOfStream => {
            lemma_decode_cut(bytes, command, cut);
        },
        Decoding::Corrupt => {},
    }
}


/// The files `files` with the part `command.encoding().subrange(0, cut)` of a
/// record written behind the log of `generation`.
pub open spec fn with_cut_tail(files: Files, generation: u64, command: CommandView, cut: int) -> Files {
    files.insert(
        (generation, LogFileType::Blessed),
        files[(generation, LogFileType::Blessed)] + command.encoding().subrange(0, cut),
    )
}

/// Reading the logs of a directory gives the same state whether or not a
/// part of a record stands behind one of them.
pub proof fn lemma_replay_from_cut_tail(
    files: Files,
    generation: u64,
    command: CommandView,
    cut: int,
    from: nat,
    upto: nat,
    st: Replayed,
)
    requires
        upto <= u64::MAX,
        files.contains_key((generation, LogFileType::Blessed)),
        whole_records(files[(generation, LogFileType::Blessed)], 0),
        command.encodable(),
        0 <= cut < command.encoding().len(),
    ensures
        replay_from(with_cut_tail(files, generation, command, cut), from, upto, st) == replay_from(
            files,
            from,
            upto,
            st,
        ),
    decreases upto + 1 - from,
{
    let other = with_cut_tail(files, generation, command, cut);
    if from <= upto {
        let g = from as u64;
        if g == generation {
            law_cut_tail_is_discarded(
                files[(generation, LogFileType::Blessed)],
                generation,
                0,
                st,
                command,
                cut,
            );
        }
        if files.contains_key((g, LogFileType::Blessed)) {
            match replay_log(files[(g, LogFileType::Blessed)], g, 0, st) {
                Ok(after) => {
                    lemma_replay_from_cut_tail(files, generation, command, cut, from + 1, upto, after);
                },
                Err(e) => {},
            }
        } else {
            lemma_replay_from_cut_tail(files, generation, command, cut, from + 1, upto, st);
        }
    }
}

/// Opening a store on a directory in which a log of whole records is
/// followed by a part of a record rebuilds what the directory without that
/// part gives; it is no error.
pub proof fn law_open_discards_cut_tail(
    files: Files,
    generation: u64,
    command: CommandView,
    cut: int,
)
    requires
        files.contains_key((generation, LogFileType::Blessed)),
        whole_records(files[(generation, LogFileType::Blessed)], 0),
        command.encodable(),
        0 <= cut < command.encoding().len(),
    ensures
        opened_state(with_cut_tail(files, generation, command, cut)) == opened_state(files),
        opened_generation(with_cut_tail(files, generation, command, cut)) == opened_generation(
            files,
        ),
{
    let other = with_cut_tail(files, generation, command, cut);
    assert(has_logs(files));
    assert(other.contains_key((generation, LogFileType::Blessed)));
    assert(has_logs(other));
    lemma_opened_generation(files);
    lemma_opened_generation(other);
    assert forall|top: u64| is_top(files, top) <==> is_top(other, top) by {
        if is_top(files, top) {
            assert forall|g: u64| #[trigger]
                other.contains_key((g, LogFileType::Blessed)) implies g <= top by {
                assert(files.contains_key((g, LogFileType::Blessed)));
            }
        }
        if is_top(other, top) {
            assert forall|g: u64| #[trigger]
                files.contains_key((g, LogFileType::Blessed)) implies g <= top by {
                assert(other.contains_key((g, LogFileType::Blessed)));
            }
        }
    }
    lemma_replay_from_cut_tail(
        files,
        generation,
        command,
        cut,
        0,
        opened_generation(files) as nat,
        Replayed::empty(),
    );
}

} // verus!
