use kvs::LogDir;
use kvs::LogFileType;

#[test]
fn new_image_is_empty() {
    let mut dir = LogDir::new();
    assert!(dir.generations().is_empty());
    assert!(!dir.contains(1, LogFileType::Blessed));
    assert_eq!(dir.read(1, LogFileType::Blessed), None);
    assert!(dir.take_ops().is_empty());
}

#[test]
fn add_log_fills_the_image_without_a_journal() {
    let mut dir = LogDir::new();
    dir.add_log(7, vec![1, 2, 3]);
    dir.add_log(2, vec![]);
    dir.add_log(11, vec![9]);
    assert_eq!(dir.generations(), vec![2, 7, 11]);
    assert!(dir.contains(7, LogFileType::Blessed));
    assert!(!dir.contains(7, LogFileType::Temporary));
    assert!(!dir.contains(3, LogFileType::Blessed));
    assert_eq!(dir.read(7, LogFileType::Blessed), Some(&vec![1u8, 2, 3]));
    assert_eq!(dir.read(2, LogFileType::Blessed), Some(&vec![]));
    assert_eq!(dir.read(7, LogFileType::Temporary), None);
    assert!(dir.take_ops().is_empty());
}

#[test]
fn add_log_replaces_a_log_of_the_same_generation() {
    let mut dir = LogDir::new();
    dir.add_log(5, vec![1]);
    dir.add_log(5, vec![2, 2]);
    assert_eq!(dir.generations(), vec![5]);
    assert_eq!(dir.read(5, LogFileType::Blessed), Some(&vec![2u8, 2]));
}

#[test]
fn add_log_behind_pending_changes_is_journaled() {
    let mut store = kvs::KvStore::open(LogDir::new()).unwrap();
    store.set("k".to_owned(), "v".to_owned()).unwrap();
    let mut dir = store.into_dir();
    dir.add_log(4, vec![7, 7]);
    assert_eq!(dir.generations(), vec![1, 4]);
    assert_eq!(dir.read(4, LogFileType::Blessed), Some(&vec![7u8, 7]));
    let ops = dir.take_ops();
    assert_eq!(ops.len(), 4);
    assert!(matches!(ops[2], kvs::FileOp::Create { generation: 4, kind: LogFileType::Blessed }));
    match &ops[3] {
        kvs::FileOp::Append { generation: 4, kind: LogFileType::Blessed, data } => {
            assert_eq!(data, &vec![7u8, 7]);
        }
        _ => panic!("not an append"),
    }
    dir.add_log(9, vec![1]);
    assert!(dir.take_ops().is_empty());
}
