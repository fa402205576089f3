//! An image of the store's directory.
//!
//! [`LogDir`] holds, for every file of the store, its generation, what kind of
//! file it is and its bytes. The store reads and changes the image only; each
//! change is also written to a journal of [`FileOp`]s, which a caller carries
//! out on the real directory to keep it equal to the image.

use crate::generation::LogFileType;
use crate::generation::ascending;
use crate::generation::insert_ascending;
use vstd::prelude::*;

verus! {

/// The files of a directory: for each generation and kind, the bytes.
pub type Files = Map<(u64, LogFileType), Seq<u8>>;

/// One file of the directory.
pub struct LogFile {
    /// The generation that the file belongs to.
    pub generation: u64,
    /// Whether the file is a log or is still being written by a compaction.
    pub kind: LogFileType,
    /// The bytes of the file.
    pub data: Vec<u8>,
}

/// One change to the directory.
pub enum FileOp {
    /// Make the file, empty. A file of that name that exists is emptied.
    Create { generation: u64, kind: LogFileType },
    /// Write `data` at the end of the file and flush.
    Append { generation: u64, kind: LogFileType, data: Vec<u8> },
    /// Rename the temporary file of the generation to be its log.
    Bless { generation: u64 },
    /// Delete the file.
    Remove { generation: u64, kind: LogFileType },
}

/// A [`FileOp`] as a mathematical value.
pub enum FileOpView {
    Create { generation: u64, kind: LogFileType },
    Append { generation: u64, kind: LogFileType, data: Seq<u8> },
    Bless { generation: u64 },
    Remove { generation: u64, kind: LogFileType },
}

impl View for FileOp {
    type V = FileOpView;

    open spec fn view(&self) -> FileOpView {
        match self {
            FileOp::Create { generation, kind } => FileOpView::Create {
                generation: *generation,
                kind: *kind,
            },
            FileOp::Append { generation, kind, data } => FileOpView::Append {
                generation: *generation,
                kind: *kind,
                data: data@,
            },
            FileOp::Bless { generation } => FileOpView::Bless { generation: *generation },
            FileOp::Remove { generation, kind } => FileOpView::Remove {
                generation: *generation,
                kind: *kind,
            },
        }
    }
}

/// A series of changes as mathematical values.
pub open spec fn views(ops: Seq<FileOp>) -> Seq<FileOpView> {
    ops.map_values(|op: FileOp| op@)
}

/// The files after one change.
pub open spec fn apply_op(files: Files, op: FileOpView) -> Files {
    match op {
        FileOpView::Create { generation, kind } => files.insert((generation, kind), Seq::empty()),
        FileOpView::Append { generation, kind, data } => files.insert(
            (generation, kind),
            files[(generation, kind)] + data,
        ),
        FileOpView::Bless { generation } => files.remove(
            (generation, LogFileType::Temporary),
        ).insert((generation, LogFileType::Blessed), files[(generation, LogFileType::Temporary)]),
        FileOpView::Remove { generation, kind } => files.remove((generation, kind)),
    }
}

/// The files after a series of changes, made in order.
pub open spec fn apply_ops(files: Files, ops: Seq<FileOpView>) -> Files
    decreases ops.len(),
{
    if ops.len() == 0 {
        files
    } else {
        apply_op(apply_ops(files, ops.drop_last()), ops.last())
    }
}

/// Whether `s` is in ascending order and holds nothing twice.
pub open spec fn strictly_ascending(s: Seq<u64>) -> bool {
    forall|i: int, j: int| 0 <= i < j < s.len() ==> s[i] < s[j]
}

/// Whether `gens` lists exactly the generations that have a log in `files`.
pub open spec fn lists_logs(files: Files, gens: Seq<u64>) -> bool {
    forall|g: u64| gens.contains(g) <==> files.contains_key((g, LogFileType::Blessed))
}

/// The generation and kind of a file.
pub open spec fn key_of(file: LogFile) -> (u64, LogFileType) {
    (file.generation, file.kind)
}

/// Whether one of the first `upto` files is the log of `generation`.
spec fn log_among(files: Seq<LogFile>, upto: int, generation: u64) -> bool {
    exists|j: int|
        0 <= j < upto && #[trigger] files[j].generation == generation && files[j].kind
            == LogFileType::Blessed
}

/// The image of a directory, and the journal of the changes made to it.
pub struct LogDir {
    files: Vec<LogFile>,
    ops: Vec<FileOp>,
    image: Ghost<Files>,
    synced: Ghost<Files>,
}

impl View for LogDir {
    type V = Files;

    closed spec fn view(&self) -> Files {
        self.image@
    }
}

impl LogDir {
    /// The image and the list of files agree, and the list holds each file
    /// once.
    closed spec fn files_match_image(&self) -> bool {
        &&& forall|i: int|
            0 <= i < self.files@.len() ==> self.image@.contains_key(
                #[trigger] key_of(self.files@[i]),
            ) && self.image@[key_of(self.files@[i])] == self.files@[i].data@
        &&& forall|i: int, j: int|
            0 <= i < j < self.files@.len() ==> #[trigger] key_of(self.files@[i])
                != #[trigger] key_of(self.files@[j])
        &&& forall|key: (u64, LogFileType)| #[trigger]
            self.image@.contains_key(key) ==> exists|i: int|
                0 <= i < self.files@.len() && #[trigger] key_of(self.files@[i]) == key
    }

    /// The image is sound: it holds each file once, and it is what the
    /// journal makes of the directory as it stood when the journal was last
    /// taken.
    pub closed spec fn wf(&self) -> bool {
        &&& self.files_match_image()
        &&& apply_ops(self.synced@, views(self.ops@)) == self.image@
    }

    /// The journal: the changes made since it was last taken.
    pub closed spec fn pending(&self) -> Seq<FileOpView> {
        views(self.ops@)
    }

    /// The directory as it stood when the journal was last taken.
    pub closed spec fn synced(&self) -> Files {
        self.synced@
    }

    /// The image of an empty directory.
    pub fn new() -> (dir: Self)
        ensures
            dir.wf(),
            dir@ == Files::empty(),
            dir.pending() == Seq::<FileOpView>::empty(),
            dir.synced() == Files::empty(),
    {
        Self {
            files: Vec::new(),
            ops: Vec::new(),
            image: Ghost(Map::empty()),
            synced: Ghost(Map::empty()),
        }
    }

    /// Where the file of `generation` and `kind` is held.
    fn find(&self, generation: u64, kind: LogFileType) -> (at: Option<usize>)
        requires
            self.wf(),
        ensures
            match at {
                Some(i) => i < self.files@.len() && key_of(self.files@[i as int]) == (
                    generation,
                    kind,
                ) && self@.contains_key((generation, kind)) && self@[(generation, kind)]
                    == self.files@[i as int].data@,
                None => !self@.contains_key((generation, kind)),
            },
    {
        let mut i: usize = 0;
        while i < self.files.len()
            invariant
                0 <= i <= self.files@.len(),
                self.wf(),
                forall|j: int| 0 <= j < i ==> #[trigger] key_of(self.files@[j]) != (generation, kind),
            decreases self.files@.len() - i,
        {
            if self.files[i].generation == generation && self.files[i].kind == kind {
                assert(key_of(self.files@[i as int]) == (generation, kind));
                return Some(i);
            }
            assert(key_of(self.files@[i as int]) != (generation, kind));
            i = i + 1;
        }
        None
    }

    /// Whether the directory holds the file of `generation` and `kind`.
    pub fn contains(&self, generation: u64, kind: LogFileType) -> (held: bool)
        requires
            self.wf(),
        ensures
            held == self@.contains_key((generation, kind)),
    {
        self.find(generation, kind).is_some()
    }

    /// The bytes of the file of `generation` and `kind`, if the directory
    /// holds it.
    pub fn read(&self, generation: u64, kind: LogFileType) -> (data: Option<&Vec<u8>>)
        requires
            self.wf(),
        ensures
            match data {
                Some(bytes) => self@.contains_key((generation, kind)) && bytes@ == self@[(
                    generation,
                    kind,
                )],
                None => !self@.contains_key((generation, kind)),
            },
    {
        match self.find(generation, kind) {
            Some(i) => Some(&self.files[i].data),
            None => None,
        }
    }

    /// Tells the image of a log that the directory holds: the log of
    /// `generation`, with the bytes `data`. This is how the image is filled
    /// before a store is opened on it, and it then leaves no entry in the
    /// journal. Where the journal holds changes that were not taken yet, the
    /// log is entered as two more of them: it is made, and `data` is written
    /// to it.
    pub fn add_log(&mut self, generation: u64, data: Vec<u8>)
        requires
            old(self).wf(),
        ensures
            final(self).wf(),
            final(self)@ == old(self)@.insert((generation, LogFileType::Blessed), data@),
            old(self).pending().len() == 0 ==> final(self).pending().len() == 0 && final(self).synced() == final(self)@,
            old(self).pending().len() > 0 ==> final(self).pending() == old(self).pending().push(
                FileOpView::Create { generation, kind: LogFileType::Blessed },
            ).push(
                FileOpView::Append { generation, kind: LogFileType::Blessed, data: data@ },
            ) && final(self).synced() == old(self).synced(),
    {
        let ghost key = (generation, LogFileType::Blessed);
        let ghost bytes = data@;
        if self.ops.len() > 0 {
            self.create(generation, LogFileType::Blessed);
            self.append(generation, LogFileType::Blessed, data);
            assert(self@ =~= old(self)@.insert(key, bytes));
            return ;
        }
        match self.find(generation, LogFileType::Blessed) {
            Some(at) => {
                self.files[at].data = data;
                proof {
                    self.image@ = self.image@.insert(key, bytes);
                    self.lemma_wf_after_update(*old(self), at as int);
                }
            },
            None => {
                self.files.push(LogFile { generation, kind: LogFileType::Blessed, data });
                proof {
                    self.image@ = self.image@.insert(key, bytes);
                    self.lemma_wf_after_push(*old(self));
                }
            },
        }
        proof {
            self.synced@ = self.image@;
            assert(self.ops@ =~= Seq::<FileOp>::empty());
            assert(views(self.ops@) =~= Seq::<FileOpView>::empty());
        }
    }

    /// The image stays sound when the bytes of one file change.
    proof fn lemma_wf_after_update(&self, before: Self, at: int)
        requires
            before.wf(),
            0 <= at < before.files@.len(),
            self.files@.len() == before.files@.len(),
            forall|i: int| 0 <= i < before.files@.len() && i != at ==> self.files@[i] == before.files@[i],
            key_of(self.files@[at]) == key_of(before.files@[at]),
            self.image@ == before.image@.insert(key_of(self.files@[at]), self.files@[at].data@),
        ensures
            self.files_match_image(),
    {
        assert forall|key: (u64, LogFileType)| #[trigger]
            self.image@.contains_key(key) implies exists|i: int|
            0 <= i < self.files@.len() && #[trigger] key_of(self.files@[i]) == key by {
            if key == key_of(self.files@[at]) {
            } else {
                let i = choose|i: int|
                    0 <= i < before.files@.len() && #[trigger] key_of(before.files@[i]) == key;
                assert(key_of(self.files@[i]) == key);
            }
        }
        assert forall|i: int| 0 <= i < self.files@.len() implies self.image@.contains_key(
            #[trigger] key_of(self.files@[i]),
        ) && self.image@[key_of(self.files@[i])] == self.files@[i].data@ by {
            if i != at {
                assert(key_of(before.files@[i]) != key_of(before.files@[at]));
            }
        }
        assert forall|i: int, j: int| 0 <= i < j < self.files@.len() implies #[trigger] key_of(
            self.files@[i],
        ) != #[trigger] key_of(self.files@[j]) by {
            assert(key_of(before.files@[i]) != key_of(before.files@[j]));
        }
    }

    /// The image stays sound when a file with a new key is put at the end.
    proof fn lemma_wf_after_push(&self, before: Self)
        requires
            before.wf(),
            self.files@.len() == before.files@.len() + 1,
            forall|i: int| 0 <= i < before.files@.len() ==> self.files@[i] == before.files@[i],
            !before.image@.contains_key(key_of(self.files@.last())),
            self.image@ == before.image@.insert(
                key_of(self.files@.last()),
                self.files@.last().data@,
            ),
        ensures
            self.files_match_image(),
    {
        let last = self.files@.len() - 1;
        assert forall|key: (u64, LogFileType)| #[trigger]
            self.image@.contains_key(key) implies exists|i: int|
            0 <= i < self.files@.len() && #[trigger] key_of(self.files@[i]) == key by {
            if key == key_of(self.files@[last]) {
            } else {
                let i = choose|i: int|
                    0 <= i < before.files@.len() && #[trigger] key_of(before.files@[i]) == key;
                assert(key_of(self.files@[i]) == key);
            }
        }
        assert forall|i: int| 0 <= i < self.files@.len() implies self.image@.contains_key(
            #[trigger] key_of(self.files@[i]),
        ) && self.image@[key_of(self.files@[i])] == self.files@[i].data@ by {
            if i != last {
                assert(before.image@.contains_key(key_of(before.files@[i])));
            }
        }
        assert forall|i: int, j: int| 0 <= i < j < self.files@.len() implies #[trigger] key_of(
            self.files@[i],
        ) != #[trigger] key_of(self.files@[j]) by {
            assert(before.image@.contains_key(key_of(before.files@[i])));
            if j != last {
                assert(key_of(before.files@[i]) != key_of(before.files@[j]));
            }
        }
    }

    /// The image stays sound when one file is taken out.
    proof fn lemma_wf_after_remove(&self, before: Self, at: int)
        requires
            before.wf(),
            0 <= at < before.files@.len(),
            self.files@ == before.files@.remove(at),
            self.image@ == before.image@.remove(key_of(before.files@[at])),
        ensures
            self.files_match_image(),
    {
        let now = self.files@;
        assert forall|i: int| 0 <= i < now.len() implies #[trigger] key_of(now[i]) != key_of(
            before.files@[at],
        ) && now[i] == before.files@[if i < at {
            i
        } else {
            i + 1
        }] by {
            let j = if i < at {
                i
            } else {
                i + 1
            };
            assert(key_of(before.files@[j]) != key_of(before.files@[at]));
        }
        assert forall|key: (u64, LogFileType)| #[trigger]
            self.image@.contains_key(key) implies exists|i: int|
            0 <= i < now.len() && #[trigger] key_of(now[i]) == key by {
            let i = choose|i: int|
                0 <= i < before.files@.len() && #[trigger] key_of(before.files@[i]) == key;
            let j = if i < at {
                i
            } else {
                i - 1
            };
            assert(key_of(now[j]) == key);
        }
        assert forall|i: int, j: int| 0 <= i < j < now.len() implies #[trigger] key_of(now[i])
            != #[trigger] key_of(now[j]) by {
            let pi = if i < at {
                i
            } else {
                i + 1
            };
            let pj = if j < at {
                j
            } else {
                j + 1
            };
            assert(key_of(before.files@[pi]) != key_of(before.files@[pj]));
        }
    }

    /// Writes `op` to the journal.
    fn record(&mut self, op: FileOp)
        ensures
            final(self).files == old(self).files,
            final(self).image == old(self).image,
            final(self).synced == old(self).synced,
            views(final(self).ops@) == views(old(self).ops@).push(op@),
            apply_ops(final(self).synced@, views(final(self).ops@)) == apply_op(
                apply_ops(old(self).synced@, views(old(self).ops@)),
                op@,
            ),
    {
        self.ops.push(op);
        assert(views(self.ops@) =~= views(old(self).ops@).push(op@));
        assert(views(self.ops@).drop_last() =~= views(old(self).ops@));
    }

    /// Makes the file of `generation` and `kind`, empty. If the directory
    /// holds it already, it is emptied.
    pub(crate) fn create(&mut self, generation: u64, kind: LogFileType)
        requires
            old(self).wf(),
        ensures
            final(self).wf(),
            final(self)@ == old(self)@.insert((generation, kind), Seq::empty()),
            final(self).pending() == old(self).pending().push(
                FileOpView::Create { generation, kind },
            ),
            final(self).synced() == old(self).synced(),
    {
        let ghost key = (generation, kind);
        match self.find(generation, kind) {
            Some(at) => {
                self.files[at].data = Vec::new();
                proof {
                    self.image@ = self.image@.insert(key, Seq::empty());
                    self.lemma_wf_after_update(*old(self), at as int);
                }
            },
            None => {
                self.files.push(LogFile { generation, kind, data: Vec::new() });
                proof {
                    self.image@ = self.image@.insert(key, Seq::empty());
                    self.lemma_wf_after_push(*old(self));
                }
            },
        }
        self.record(FileOp::Create { generation, kind });
    }

    /// Writes `data` at the end of the file of `generation` and `kind`, and
    /// returns the offset at which it now starts.
    pub(crate) fn append(&mut self, generation: u64, kind: LogFileType, data: Vec<u8>) -> (offset:
        usize)
        requires
            old(self).wf(),
            old(self)@.contains_key((generation, kind)),
        ensures
            final(self).wf(),
            offset == old(self)@[(generation, kind)].len(),
            final(self)@ == old(self)@.insert(
                (generation, kind),
                old(self)@[(generation, kind)] + data@,
            ),
            final(self).pending() == old(self).pending().push(
                FileOpView::Append { generation, kind, data: data@ },
            ),
            final(self).synced() == old(self).synced(),
    {
        let at = match self.find(generation, kind) {
            Some(i) => i,
            None => { return 0; },
        };
        let offset = self.files[at].data.len();
        let mut copy = vstd::slice::slice_to_vec(data.as_slice());
        let file = &mut self.files[at];
        file.data.append(&mut copy);
        proof {
            self.image@ = self.image@.insert((generation, kind), self.files@[at as int].data@);
            self.lemma_wf_after_update(*old(self), at as int);
        }
        self.record(FileOp::Append { generation, kind, data });
        offset
    }

    /// Renames the temporary file of `generation` to be its log.
    pub(crate) fn bless(&mut self, generation: u64)
        requires
            old(self).wf(),
            old(self)@.contains_key((generation, LogFileType::Temporary)),
            !old(self)@.contains_key((generation, LogFileType::Blessed)),
        ensures
            final(self).wf(),
            final(self)@ == old(self)@.remove((generation, LogFileType::Temporary)).insert(
                (generation, LogFileType::Blessed),
                old(self)@[(generation, LogFileType::Temporary)],
            ),
            final(self).pending() == old(self).pending().push(FileOpView::Bless { generation }),
            final(self).synced() == old(self).synced(),
    {
        let at = match self.find(generation, LogFileType::Temporary) {
            Some(i) => i,
            None => { return ; },
        };
        self.files[at].kind = LogFileType::Blessed;
        proof {
            let from = (generation, LogFileType::Temporary);
            let to = (generation, LogFileType::Blessed);
            let before = *old(self);
            self.image@ = self.image@.remove(from).insert(to, self.files@[at as int].data@);
            assert forall|key: (u64, LogFileType)| #[trigger]
                self.image@.contains_key(key) implies exists|i: int|
                0 <= i < self.files@.len() && #[trigger] key_of(self.files@[i]) == key by {
                if key == to {
                    assert(key_of(self.files@[at as int]) == key);
                } else {
                    let i = choose|i: int|
                        0 <= i < before.files@.len() && #[trigger] key_of(before.files@[i]) == key;
                    assert(key_of(self.files@[i]) == key);
                }
            }
            assert forall|i: int| 0 <= i < self.files@.len() implies self.image@.contains_key(
                #[trigger] key_of(self.files@[i]),
            ) && self.image@[key_of(self.files@[i])] == self.files@[i].data@ by {
                if i != at {
                    assert(key_of(before.files@[i]) != key_of(before.files@[at as int]));
                    assert(before.image@.contains_key(key_of(before.files@[i])));
                }
            }
            assert forall|i: int, j: int| 0 <= i < j < self.files@.len() implies #[trigger] key_of(
                self.files@[i],
            ) != #[trigger] key_of(self.files@[j]) by {
                assert(key_of(before.files@[i]) != key_of(before.files@[j]));
                assert(before.image@.contains_key(key_of(before.files@[i])));
                assert(before.image@.contains_key(key_of(before.files@[j])));
            }
        }
        self.record(FileOp::Bless { generation });
    }

    /// Deletes the file of `generation` and `kind`.
    pub(crate) fn remove(&mut self, generation: u64, kind: LogFileType)
        requires
            old(self).wf(),
            old(self)@.contains_key((generation, kind)),
        ensures
            final(self).wf(),
            final(self)@ == old(self)@.remove((generation, kind)),
            final(self).pending() == old(self).pending().push(
                FileOpView::Remove { generation, kind },
            ),
            final(self).synced() == old(self).synced(),
    {
        let at = match self.find(generation, kind) {
            Some(i) => i,
            None => { return ; },
        };
        self.files.remove(at);
        proof {
            self.image@ = self.image@.remove((generation, kind));
            self.lemma_wf_after_remove(*old(self), at as int);
        }
        self.record(FileOp::Remove { generation, kind });
    }

    /// Takes the journal: the changes made to the image since the journal was
    /// last taken, in the order in which they were made. Carried out on the
    /// directory as it then stood, they make it what the image is now.
    pub fn take_ops(&mut self) -> (ops: Vec<FileOp>)
        requires
            old(self).wf(),
        ensures
            final(self).wf(),
            views(ops@) == old(self).pending(),
            apply_ops(old(self).synced(), views(ops@)) == final(self)@,
            final(self)@ == old(self)@,
            final(self).pending().len() == 0,
            final(self).synced() == final(self)@,
    {
        let mut ops: Vec<FileOp> = Vec::new();
        ops.append(&mut self.ops);
        proof {
            self.synced@ = self.image@;
            assert(ops@ =~= old(self).ops@);
            assert(views(self.ops@) =~= Seq::<FileOpView>::empty());
        }
        ops
    }

    /// The generations that have a log in the directory, in ascending order.
    pub fn generations(&self) -> (gen_list: Vec<u64>)
        requires
            self.wf(),
        ensures
            strictly_ascending(gen_list@),
            lists_logs(self@, gen_list@),
    {
        let mut gen_list: Vec<u64> = Vec::new();
        let mut i: usize = 0;
        while i < self.files.len()
            invariant
                0 <= i <= self.files@.len(),
                self.wf(),
                strictly_ascending(gen_list@),
                forall|a: int|
                    0 <= a < gen_list@.len() ==> log_among(self.files@, i as int, #[trigger] gen_list@[a]),
                forall|j: int|
                    0 <= j < i && self.files@[j].kind == LogFileType::Blessed
                        ==> gen_list@.contains(#[trigger] self.files@[j].generation),
            decreases self.files@.len() - i,
        {
            if self.files[i].kind == LogFileType::Blessed {
                let ghost before = gen_list@;
                let generation = self.files[i].generation;
                insert_ascending(&mut gen_list, generation);
                proof {
                    let at = choose|at: int|
                        0 <= at <= before.len() && gen_list@ == #[trigger] before.insert(
                            at,
                            generation,
                        );
                    assert(gen_list@[at] == generation);
                    assert forall|a: int| 0 <= a < before.len() implies #[trigger] before[a]
                        != generation by {
                        assert(log_among(self.files@, i as int, before[a]));
                        let j = choose|j: int|
                            0 <= j < i && #[trigger] self.files@[j].generation == before[a]
                                && self.files@[j].kind == LogFileType::Blessed;
                        assert(key_of(self.files@[j]) != key_of(self.files@[i as int]));
                    }
                    assert forall|a: int, b: int|
                        0 <= a < b < gen_list@.len() implies gen_list@[a] < gen_list@[b] by {
                        let pa = if a < at {
                            a
                        } else {
                            a - 1
                        };
                        let pb = if b < at {
                            b
                        } else {
                            b - 1
                        };
                        if a != at && b != at {
                            assert(gen_list@[a] == before[pa]);
                            assert(gen_list@[b] == before[pb]);
                        } else if a == at {
                            assert(gen_list@[b] == before[pb]);
                        } else {
                            assert(gen_list@[a] == before[pa]);
                        }
                    }
                    assert forall|j: int|
                        0 <= j < i + 1 && self.files@[j].kind
                            == LogFileType::Blessed implies gen_list@.contains(
                        #[trigger] self.files@[j].generation,
                    ) by {
                        if j < i {
                            let a = choose|a: int|
                                0 <= a < before.len() && before[a] == self.files@[j].generation;
                            if a < at {
                                assert(gen_list@[a] == before[a]);
                            } else {
                                assert(gen_list@[a + 1] == before[a]);
                            }
                        }
                    }
                    assert forall|a: int| 0 <= a < gen_list@.len() implies log_among(
                        self.files@,
                        i + 1,
                        #[trigger] gen_list@[a],
                    ) by {
                        if a < at {
                            assert(gen_list@[a] == before[a]);
                            assert(log_among(self.files@, i as int, before[a]));
                        } else if a == at {
                            assert(self.files@[i as int].generation == gen_list@[a]);
                        } else {
                            assert(gen_list@[a] == before[a - 1]);
                            assert(log_among(self.files@, i as int, before[a - 1]));
                        }
                    }
                }
            } else {
                proof {
                    assert forall|a: int| 0 <= a < gen_list@.len() implies log_among(
                        self.files@,
                        i + 1,
                        #[trigger] gen_list@[a],
                    ) by {
                        assert(log_among(self.files@, i as int, gen_list@[a]));
                    }
                }
            }
            i = i + 1;
        }
        proof {
            assert forall|g: u64| gen_list@.contains(g) <==> self@.contains_key(
                (g, LogFileType::Blessed),
            ) by {
                if gen_list@.contains(g) {
                    let a = choose|a: int| 0 <= a < gen_list@.len() && gen_list@[a] == g;
                    assert(log_among(self.files@, i as int, gen_list@[a]));
                    let j = choose|j: int|
                        0 <= j < i && #[trigger] self.files@[j].generation == g
                            && self.files@[j].kind == LogFileType::Blessed;
                    assert(self@.contains_key(key_of(self.files@[j])));
                }
                if self@.contains_key((g, LogFileType::Blessed)) {
                    let j = choose|j: int|
                        0 <= j < self.files@.len() && #[trigger] key_of(self.files@[j]) == (
                            g,
                            LogFileType::Blessed,
                        );
                    assert(gen_list@.contains(self.files@[j].generation));
                }
            }
        }
        gen_list
    }
}

} // verus!
