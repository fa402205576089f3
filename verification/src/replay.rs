//! What a log means: the index that reading it from the start rebuilds.

use crate::command::Command;
use crate::command::CommandView;
use crate::command::DecodeError;
use crate::command::Decoding;
use crate::command::decode_at;
use crate::command::lemma_decode_encoded;
use crate::command::lemma_decode_same_bytes;
use crate::command::lemma_decoded_bytes;
use crate::error::KvsError;
use crate::generation::LogFileType;
use crate::index::InternalMap;
use crate::index::LogEntry;
use crate::index::index_after_set;
use crate::index::wasted_by_set;
use crate::logdir::Files;
use vstd::prelude::*;
use vstd::utf8::encode_utf8;

verus! {

/// The state that reading logs rebuilds.
pub struct Replayed {
    /// For each live key, the place of its latest record.
    pub index: Map<Seq<char>, LogEntry>,
    /// The bytes of the records that later records have superseded.
    pub wasted: usize,
}

impl Replayed {
    /// The state before anything was read.
    pub open spec fn empty() -> Replayed {
        Replayed { index: Map::empty(), wasted: 0 }
    }
}

/// The count of wasted bytes after `more` bytes became waste. The count stops
/// at the greatest number it can hold.
pub open spec fn add_waste(wasted: usize, more: usize) -> usize {
    if wasted + more > usize::MAX {
        usize::MAX
    } else {
        (wasted + more) as usize
    }
}

/// The entry that the index gets for a `SetValue` record found at `pos` in
/// the log of `generation`.
pub open spec fn entry_for(command: CommandView, generation: u64, pos: nat) -> LogEntry {
    LogEntry {
        generation,
        file_pos: pos as u64,
        estimated_bytes: command.estimated_bytes() as usize,
    }
}

/// The state after the record `command`, found at `pos` in the log of
/// `generation`, was applied. A `Remove` of a key that has no entry is an
/// error.
pub open spec fn apply_record(st: Replayed, command: CommandView, generation: u64, pos: nat) -> Result<
    Replayed,
    KvsError,
> {
    match command {
        CommandView::SetValue { key, value } => Ok(
            Replayed {
                index: index_after_set(st.index, key, entry_for(command, generation, pos)),
                wasted: add_waste(st.wasted, wasted_by_set(st.index, key, generation)),
            },
        ),
        CommandView::Remove { key } => if st.index.contains_key(key) {
            Ok(
                Replayed {
                    index: st.index.remove(key),
                    wasted: add_waste(st.wasted, st.index[key].estimated_bytes),
                },
            )
        } else {
            Err(KvsError::KeyNotFound)
        },
    }
}

/// The state after the records of the log `bytes` of `generation` were
/// applied to `st` in file order, from the record at `pos` on.
///
/// Reading stops without error where the bytes end, be it after a whole
/// record or in the middle of one. A record that cannot be decoded is an
/// error.
pub open spec fn replay_log(bytes: Seq<u8>, generation: u64, pos: nat, st: Replayed) -> Result<
    Replayed,
    KvsError,
>
    decreases bytes.len() - pos,
{
    match decode_at(bytes, pos as int) {
        Decoding::Record { command, next } => {
            proof {
                lemma_decoded_bytes(bytes, pos as int);
            }
            match apply_record(st, command, generation, pos) {
                Ok(after) => replay_log(bytes, generation, next as nat, after),
                Err(e) => Err(e),
            }
        },
        Decoding::EndOfStream => Ok(st),
        Decoding::Corrupt => Err(KvsError::Codec),
    }
}

/// The state after the logs of the generations `from` to `upto` in `files`
/// were applied to `st`, in ascending order of generation.
pub open spec fn replay_from(files: Files, from: nat, upto: nat, st: Replayed) -> Result<
    Replayed,
    KvsError,
>
    decreases upto + 1 - from,
{
    if from > upto {
        Ok(st)
    } else if files.contains_key((from as u64, LogFileType::Blessed)) {
        match replay_log(files[(from as u64, LogFileType::Blessed)], from as u64, 0, st) {
            Ok(after) => replay_from(files, from + 1, upto, after),
            Err(e) => Err(e),
        }
    } else {
        replay_from(files, from + 1, upto, st)
    }
}

/// Whether the log `bytes` consists of whole records from `pos` to its end:
/// no record is cut short and none is corrupt.
pub open spec fn whole_records(bytes: Seq<u8>, pos: nat) -> bool
    decreases bytes.len() - pos,
{
    match decode_at(bytes, pos as int) {
        Decoding::Record { command, next } => {
            proof {
                lemma_decoded_bytes(bytes, pos as int);
            }
            whole_records(bytes, next as nat)
        },
        Decoding::EndOfStream => pos >= bytes.len(),
        Decoding::Corrupt => false,
    }
}

/// A record written behind a log of whole records is applied after the
/// records of the log, at the offset where the log ended; and the log still
/// consists of whole records.
pub proof fn lemma_replay_appended(
    bytes: Seq<u8>,
    generation: u64,
    pos: nat,
    st: Replayed,
    command: CommandView,
)
    requires
        whole_records(bytes, pos),
        pos <= bytes.len(),
        command.encodable(),
    ensures
        whole_records(bytes + command.encoding(), pos),
        replay_log(bytes + command.encoding(), generation, pos, st) == match replay_log(
            bytes,
            generation,
            pos,
            st,
        ) {
            Ok(after) => apply_record(after, command, generation, bytes.len()),
            Err(e) => Err(e),
        },
    decreases bytes.len() - pos,
{
    let longer = bytes + command.encoding();
    match decode_at(bytes, pos as int) {
        Decoding::Record { command: found, next } => {
            lemma_decoded_bytes(bytes, pos as int);
            assert(longer.subrange(pos as int, next) =~= bytes.subrange(pos as int, next));
            lemma_decode_same_bytes(bytes, longer, pos as int);
            match apply_record(st, found, generation, pos) {
                Ok(after) => {
                    lemma_replay_appended(bytes, generation, next as nat, after, command);
                },
                Err(e) => {
                    lemma_replay_appended(bytes, generation, next as nat, st, command);
                },
            }
        },
        Decoding::EndOfStream => {
            lemma_decode_encoded(bytes, command, Seq::empty());
            assert(bytes + command.encoding() + Seq::<u8>::empty() =~= longer);
            let end = longer.len();
            assert(decode_at(longer, end as int) is EndOfStream);
            match apply_record(st, command, generation, pos) {
                Ok(after) => {
                    assert(replay_log(longer, generation, end, after) == Ok::<Replayed, KvsError>(
                        after,
                    ));
                },
                Err(e) => {},
            }
            assert(whole_records(longer, end));
        },
        Decoding::Corrupt => {},
    }
}

/// Generations that have no log add nothing: reading from `from` is reading
/// from `to` where no generation between them has a log.
pub proof fn lemma_replay_skips(files: Files, from: nat, to: nat, upto: nat, st: Replayed)
    requires
        from <= to <= upto + 1,
        upto <= u64::MAX,
        forall|g: u64| from <= g < to ==> !files.contains_key((g, LogFileType::Blessed)),
    ensures
        replay_from(files, from, upto, st) == replay_from(files, to, upto, st),
    decreases to - from,
{
    if from < to {
        assert(!files.contains_key((from as u64, LogFileType::Blessed)));
        lemma_replay_skips(files, from + 1, to, upto, st);
    }
}

/// A record written behind the log of the last generation that is read is
/// applied after the records of all logs.
pub proof fn lemma_replay_from_appended(
    files: Files,
    from: nat,
    upto: nat,
    st: Replayed,
    command: CommandView,
)
    requires
        from <= upto <= u64::MAX,
        files.contains_key((upto as u64, LogFileType::Blessed)),
        whole_records(files[(upto as u64, LogFileType::Blessed)], 0),
        command.encodable(),
    ensures
        replay_from(
            files.insert(
                (upto as u64, LogFileType::Blessed),
                files[(upto as u64, LogFileType::Blessed)] + command.encoding(),
            ),
            from,
            upto,
            st,
        ) == match replay_from(files, from, upto, st) {
            Ok(after) => apply_record(
                after,
                command,
                upto as u64,
                files[(upto as u64, LogFileType::Blessed)].len(),
            ),
            Err(e) => Err(e),
        },
    decreases upto - from,
{
    let last = (upto as u64, LogFileType::Blessed);
    let longer = files.insert(last, files[last] + command.encoding());
    if from < upto {
        let g = from as u64;
        if files.contains_key((g, LogFileType::Blessed)) {
            match replay_log(files[(g, LogFileType::Blessed)], g, 0, st) {
                Ok(after) => {
                    lemma_replay_from_appended(files, from + 1, upto, after, command);
                },
                Err(e) => {},
            }
        } else {
            lemma_replay_from_appended(files, from + 1, upto, st, command);
        }
    } else {
        lemma_replay_appended(files[last], upto as u64, 0, st, command);
        match replay_log(files[last], upto as u64, 0, st) {
            Ok(after) => {
                assert(replay_from(files, upto + 1, upto, after) == Ok::<Replayed, KvsError>(
                    after,
                ));
                match apply_record(after, command, upto as u64, files[last].len()) {
                    Ok(end) => {
                        assert(replay_from(longer, upto + 1, upto, end) == Ok::<
                            Replayed,
                            KvsError,
                        >(end));
                    },
                    Err(e) => {},
                }
            },
            Err(e) => {},
        }
    }
}

/// Whether `entry` is the place of a `SetValue` record of `key` in the log
/// `bytes`, and counts the bytes of that record's key and value.
pub open spec fn entry_matches(bytes: Seq<u8>, key: Seq<char>, entry: LogEntry) -> bool {
    &&& decode_at(bytes, entry.file_pos as int) matches Decoding::Record { command, next }
    &&& command matches CommandView::SetValue { key: k, value }
    &&& k == key
    &&& entry.estimated_bytes == encode_utf8(key).len() + encode_utf8(value).len()
}

/// The value of the `SetValue` record at `entry` in the log `bytes`.
pub open spec fn value_at(bytes: Seq<u8>, entry: LogEntry) -> Seq<char> {
    match decode_at(bytes, entry.file_pos as int) {
        Decoding::Record { command: CommandView::SetValue { key, value }, next } => value,
        _ => Seq::empty(),
    }
}

/// The number of bytes of `text` in UTF-8.
pub(crate) fn byte_len(text: &String) -> (n: usize)
    ensures
        n == encode_utf8(text@).len(),
{
    text.as_str().as_bytes().len()
}

/// Reads the log `bytes` of `generation` from its start and applies its
/// records to the index `map` and to the count `wasted`. Every entry that
/// the index gains points at a `SetValue` record of its key in `bytes`.
pub(crate) fn replay_generation(
    bytes: &[u8],
    generation: u64,
    map: &mut InternalMap,
    wasted: &mut usize,
) -> (r: Result<(), KvsError>)
    ensures
        match replay_log(
            bytes@,
            generation,
            0,
            Replayed { index: old(map)@, wasted: *old(wasted) },
        ) {
            Ok(st) => r is Ok && final(map)@ == st.index && *final(wasted) == st.wasted,
            Err(e) => r == Err::<(), KvsError>(e),
        },
        old(map)@.dom().finite() ==> final(map)@.dom().finite(),
        forall|key: Seq<char>| #[trigger]
            final(map)@.contains_key(key) ==> (old(map)@.contains_key(key) && final(map)@[key]
                == old(map)@[key]) || (final(map)@[key].generation == generation && entry_matches(
                bytes@,
                key,
                final(map)@[key],
            )),
{
    let ghost goal = replay_log(
        bytes@,
        generation,
        0,
        Replayed { index: map@, wasted: *wasted },
    );
    let mut pos: usize = 0;
    loop
        invariant
            goal == replay_log(
                bytes@,
                generation,
                0,
                Replayed { index: old(map)@, wasted: *old(wasted) },
            ),
            replay_log(bytes@, generation, pos as nat, Replayed { index: map@, wasted: *wasted })
                == goal,
            old(map)@.dom().finite() ==> map@.dom().finite(),
            forall|key: Seq<char>| #[trigger]
                map@.contains_key(key) ==> (old(map)@.contains_key(key) && map@[key] == old(
                    map,
                )@[key]) || (map@[key].generation == generation && entry_matches(
                    bytes@,
                    key,
                    map@[key],
                )),
        decreases bytes@.len() - pos,
    {
        match Command::from_reader(bytes, pos) {
            Ok((command, next)) => {
                proof {
                    lemma_decoded_bytes(bytes@, pos as int);
                }
                match command {
                    Command::SetValue { key, value } => {
                        let estimated_bytes = byte_len(&key) + byte_len(&value);
                        match map.set(key.as_str(), generation, pos as u64, estimated_bytes) {
                            Ok(more) => {
                                *wasted = wasted.saturating_add(more);
                            },
                            Err(e) => {
                                return Err(e);
                            },
                        }
                    },
                    Command::Remove { key } => {
                        match map.remove(key.as_str()) {
                            Ok(more) => {
                                *wasted = wasted.saturating_add(more);
                            },
                            Err(e) => {
                                return Err(e);
                            },
                        }
                    },
                }
                pos = next;
            },
            Err(DecodeError::EndOfStream) => {
                return Ok(());
            },
            Err(DecodeError::Corrupt) => {
                return Err(KvsError::Codec);
            },
        }
    }
}

} // verus!
