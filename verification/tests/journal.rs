use kvs::log_path;
use kvs::CompactionCause;
use kvs::FileOp;
use kvs::KvStore;
use kvs::KvsError;
use kvs::LogDir;
use kvs::LogFileType;
use kvs::COMPACTION_BYTES_THRESHOLD;
use std::collections::BTreeMap;

/// A directory as a map from file names to contents, on which the journal
/// is carried out as a caller would carry it out on disk.
struct Mirror {
    files: BTreeMap<String, Vec<u8>>,
}

impl Mirror {
    fn new() -> Self {
        Mirror { files: BTreeMap::new() }
    }

    fn carry_out(&mut self, ops: Vec<FileOp>) {
        for op in ops {
            match op {
                FileOp::Create { generation, kind } => {
                    self.files.insert(log_path(generation, kind), Vec::new());
                }
                FileOp::Append { generation, kind, data } => {
                    self.files
                        .get_mut(&log_path(generation, kind))
                        .expect("append to a file that exists")
                        .extend_from_slice(&data);
                }
                FileOp::Bless { generation } => {
                    let data = self
                        .files
                        .remove(&log_path(generation, LogFileType::Temporary))
                        .expect("bless a file that exists");
                    let before = self.files.insert(log_path(generation, LogFileType::Blessed), data);
                    assert!(before.is_none());
                }
                FileOp::Remove { generation, kind } => {
                    self.files.remove(&log_path(generation, kind)).expect("remove a file that exists");
                }
            }
        }
    }

    fn matches(&self, dir: &LogDir) -> bool {
        let logs = dir.generations();
        let names: Vec<String> =
            logs.iter().map(|generation| log_path(*generation, LogFileType::Blessed)).collect();
        self.files.keys().cloned().collect::<Vec<String>>().iter().all(|name| names.contains(name))
            && logs.iter().all(|generation| {
                self.files.get(&log_path(*generation, LogFileType::Blessed))
                    == dir.read(*generation, LogFileType::Blessed)
            })
            && names.len() == self.files.len()
    }
}

fn big(fill: char) -> String {
    std::iter::repeat(fill).take(COMPACTION_BYTES_THRESHOLD / 2 + 1).collect()
}

#[test]
fn journal_of_a_fresh_store_creates_the_first_log() {
    let mut store = KvStore::open(LogDir::new()).unwrap();
    let ops = store.take_ops();
    assert_eq!(ops.len(), 1);
    assert!(matches!(ops[0], FileOp::Create { generation: 1, kind: LogFileType::Blessed }));
    assert!(store.take_ops().is_empty());
}

#[test]
fn journal_of_a_set_is_one_append() {
    let mut store = KvStore::open(LogDir::new()).unwrap();
    store.take_ops();
    store.set("k".to_owned(), "v".to_owned()).unwrap();
    let ops = store.take_ops();
    assert_eq!(ops.len(), 1);
    match &ops[0] {
        FileOp::Append { generation, kind, data } => {
            assert_eq!(*generation, 1);
            assert_eq!(*kind, LogFileType::Blessed);
            assert_eq!(Some(data), store.dir().read(1, LogFileType::Blessed));
        }
        _ => panic!("not an append"),
    }
}

#[test]
fn failed_remove_writes_nothing() {
    let mut store = KvStore::open(LogDir::new()).unwrap();
    store.take_ops();
    assert_eq!(store.remove("k".to_owned()), Err(KvsError::KeyNotFound));
    assert!(store.take_ops().is_empty());
    assert_eq!(store.dir().read(1, LogFileType::Blessed).unwrap().len(), 0);
}

#[test]
fn journal_keeps_a_mirror_equal_to_the_image() {
    let mut mirror = Mirror::new();
    let mut store = KvStore::open(LogDir::new()).unwrap();
    mirror.carry_out(store.take_ops());
    assert!(mirror.matches(store.dir()));
    for round in 0..5 {
        store.set("a".to_owned(), big('a')).unwrap();
        mirror.carry_out(store.take_ops());
        assert!(mirror.matches(store.dir()));
        store.set(format!("k{}", round), "small".to_owned()).unwrap();
        store.remove(format!("k{}", round)).unwrap();
        store.set("b".to_owned(), big('b')).unwrap();
        mirror.carry_out(store.take_ops());
        assert!(mirror.matches(store.dir()));
    }
    assert!(store.current_generation() > 1);
    assert_eq!(mirror.files.len(), 2);
    assert!(mirror.files.keys().all(|name| name.ends_with(".log")));
}

#[test]
fn compaction_leaves_the_target_and_the_successor() {
    let mut store = KvStore::open(LogDir::new()).unwrap();
    store.set("keep".to_owned(), "this".to_owned()).unwrap();
    store.set("gone".to_owned(), "soon".to_owned()).unwrap();
    store.remove("gone".to_owned()).unwrap();
    store.set("a".to_owned(), big('a')).unwrap();
    store.set("a".to_owned(), big('b')).unwrap();
    assert_eq!(store.current_generation(), 1);
    assert!(store.wasted_bytes() > 0 && store.wasted_bytes() < COMPACTION_BYTES_THRESHOLD);
    store.set("a".to_owned(), big('c')).unwrap();
    assert_eq!(store.current_generation(), 3);
    assert_eq!(store.wasted_bytes(), 0);
    assert_eq!(store.dir().generations(), vec![2, 3]);
    assert_eq!(store.reader_count(), 2);
    assert!(!store.dir().contains(2, LogFileType::Temporary));
    assert!(!store.dir().contains(1, LogFileType::Blessed));
    assert_eq!(store.dir().read(3, LogFileType::Blessed).unwrap().len(), 0);
    assert_eq!(store.len(), 2);
    assert_eq!(store.get("keep".to_owned()).unwrap(), Some("this".to_owned()));
    assert_eq!(store.get("gone".to_owned()).unwrap(), None);
    assert_eq!(store.get("a".to_owned()).unwrap(), Some(big('c')));
    store.set("later".to_owned(), "write".to_owned()).unwrap();
    assert!(store.dir().read(3, LogFileType::Blessed).unwrap().len() > 0);
    assert_eq!(store.dir().generations(), vec![2, 3]);
}

#[test]
fn compaction_fails_when_generations_are_exhausted() {
    let mut dir = LogDir::new();
    dir.add_log(u64::MAX - 1, Vec::new());
    let mut store = KvStore::open(dir).unwrap();
    assert_eq!(store.current_generation(), u64::MAX - 1);
    store.set("a".to_owned(), big('a')).unwrap();
    store.set("a".to_owned(), big('b')).unwrap();
    assert_eq!(
        store.set("a".to_owned(), big('c')),
        Err(KvsError::CompactionFailed(CompactionCause::GenerationsExhausted))
    );
    assert_eq!(store.get("a".to_owned()).unwrap(), Some(big('c')));
    assert_eq!(store.current_generation(), u64::MAX - 1);
    assert_eq!(store.dir().generations(), vec![u64::MAX - 1]);
}

#[test]
fn compaction_fails_rather_than_lose_records_behind_a_cut() {
    let mut first = KvStore::open(LogDir::new()).unwrap();
    first.set("a".to_owned(), "1".to_owned()).unwrap();
    first.set("c".to_owned(), "3".to_owned()).unwrap();
    let mut data = first.dir().read(1, LogFileType::Blessed).unwrap().clone();
    data.pop();
    let mut dir = LogDir::new();
    dir.add_log(1, data);
    let mut store = KvStore::open(dir).unwrap();
    assert_eq!(store.get("c".to_owned()).unwrap(), None);
    store.set("k".to_owned(), big('a')).unwrap();
    store.set("k".to_owned(), big('b')).unwrap();
    assert_eq!(
        store.set("k".to_owned(), big('c')),
        Err(KvsError::CompactionFailed(CompactionCause::UnreachableRecords))
    );
    assert_eq!(store.get("k".to_owned()).unwrap(), Some(big('c')));
    assert_eq!(store.get("a".to_owned()).unwrap(), Some("1".to_owned()));
    assert!(store.dir().contains(1, LogFileType::Blessed));
    assert!(store.dir().contains(2, LogFileType::Temporary));
    assert_eq!(store.dir().generations(), vec![1, 3]);
    assert_eq!(store.current_generation(), 3);
}

#[test]
fn journal_of_a_compaction_is_in_protocol_order() {
    let mut store = KvStore::open(LogDir::new()).unwrap();
    store.set("small".to_owned(), "value".to_owned()).unwrap();
    store.set("a".to_owned(), big('a')).unwrap();
    store.set("a".to_owned(), big('b')).unwrap();
    store.take_ops();
    store.set("a".to_owned(), big('c')).unwrap();
    let ops = store.take_ops();
    assert_eq!(ops.len(), 7);
    assert!(matches!(
        ops[0],
        FileOp::Append { generation: 1, kind: LogFileType::Blessed, .. }
    ));
    assert!(matches!(ops[1], FileOp::Create { generation: 2, kind: LogFileType::Temporary }));
    assert!(matches!(ops[2], FileOp::Create { generation: 3, kind: LogFileType::Blessed }));
    let mut target = Vec::new();
    for op in &ops[3..5] {
        match op {
            FileOp::Append { generation: 2, kind: LogFileType::Temporary, data } => {
                target.extend_from_slice(data);
            }
            _ => panic!("not an append to the target"),
        }
    }
    assert!(matches!(ops[5], FileOp::Bless { generation: 2 }));
    assert!(matches!(ops[6], FileOp::Remove { generation: 1, kind: LogFileType::Blessed }));
    assert_eq!(Some(&target), store.dir().read(2, LogFileType::Blessed));
    let mut expected = Vec::new();
    kvs::Command::SetValue { key: "small".to_owned(), value: "value".to_owned() }
        .to_writer(&mut expected);
    kvs::Command::SetValue { key: "a".to_owned(), value: big('c') }.to_writer(&mut expected);
    assert_eq!(target, expected);
}

#[test]
fn compaction_retires_every_old_log_in_ascending_order() {
    let mut dir = LogDir::new();
    let mut newest = Vec::new();
    kvs::Command::SetValue { key: "k".to_owned(), value: "new".to_owned() }.to_writer(&mut newest);
    let mut oldest = Vec::new();
    kvs::Command::SetValue { key: "k".to_owned(), value: "old".to_owned() }.to_writer(&mut oldest);
    kvs::Command::SetValue { key: "j".to_owned(), value: "kept".to_owned() }.to_writer(&mut oldest);
    dir.add_log(8, newest);
    dir.add_log(5, oldest);
    dir.add_log(6, Vec::new());
    let mut store = KvStore::open(dir).unwrap();
    store.set("a".to_owned(), big('a')).unwrap();
    store.set("a".to_owned(), big('b')).unwrap();
    store.take_ops();
    store.set("a".to_owned(), big('c')).unwrap();
    let ops = store.take_ops();
    let removed: Vec<u64> = ops
        .iter()
        .filter_map(|op| match op {
            FileOp::Remove { generation, kind: LogFileType::Blessed } => Some(*generation),
            _ => None,
        })
        .collect();
    assert_eq!(removed, vec![5, 6, 8]);
    assert_eq!(store.dir().generations(), vec![9, 10]);
    assert_eq!(store.get("k".to_owned()).unwrap(), Some("new".to_owned()));
    assert_eq!(store.get("j".to_owned()).unwrap(), Some("kept".to_owned()));
    assert_eq!(store.get("a".to_owned()).unwrap(), Some(big('c')));
    let mut expected = Vec::new();
    kvs::Command::SetValue { key: "k".to_owned(), value: "new".to_owned() }.to_writer(&mut expected);
    kvs::Command::SetValue { key: "j".to_owned(), value: "kept".to_owned() }
        .to_writer(&mut expected);
    kvs::Command::SetValue { key: "a".to_owned(), value: big('c') }.to_writer(&mut expected);
    assert_eq!(Some(&expected), store.dir().read(9, LogFileType::Blessed));
}
