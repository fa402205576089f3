use kvs::InternalMap;
use kvs::KvsError;
use kvs::LogEntry;

#[test]
fn new_index_is_empty() {
    let index = InternalMap::new();
    assert_eq!(index.len(), 0);
    assert_eq!(index.get("k"), Ok(None));
}

#[test]
fn set_of_an_absent_key_wastes_nothing() {
    let mut index = InternalMap::new();
    assert_eq!(index.set("k", 1, 0, 7), Ok(0));
    assert_eq!(
        index.get("k"),
        Ok(Some(LogEntry { generation: 1, file_pos: 0, estimated_bytes: 7 }))
    );
    assert_eq!(index.len(), 1);
}

#[test]
fn set_over_an_older_or_equal_generation_wastes_the_old_bytes() {
    let mut index = InternalMap::new();
    index.set("k", 2, 0, 7).unwrap();
    assert_eq!(index.set("k", 2, 30, 9), Ok(7));
    assert_eq!(
        index.get("k"),
        Ok(Some(LogEntry { generation: 2, file_pos: 30, estimated_bytes: 9 }))
    );
    assert_eq!(index.set("k", 5, 4, 11), Ok(9));
    assert_eq!(
        index.get("k"),
        Ok(Some(LogEntry { generation: 5, file_pos: 4, estimated_bytes: 11 }))
    );
    assert_eq!(index.len(), 1);
}

#[test]
fn set_from_an_older_generation_is_refused() {
    let mut index = InternalMap::new();
    index.set("k", 5, 40, 11).unwrap();
    assert_eq!(index.set("k", 4, 0, 3), Ok(0));
    assert_eq!(
        index.get("k"),
        Ok(Some(LogEntry { generation: 5, file_pos: 40, estimated_bytes: 11 }))
    );
}

#[test]
fn remove_returns_the_bytes_and_deletes() {
    let mut index = InternalMap::new();
    index.set("a", 1, 0, 5).unwrap();
    index.set("b", 1, 25, 6).unwrap();
    assert_eq!(index.remove("a"), Ok(5));
    assert_eq!(index.get("a"), Ok(None));
    assert_eq!(index.len(), 1);
    assert_eq!(
        index.get("b"),
        Ok(Some(LogEntry { generation: 1, file_pos: 25, estimated_bytes: 6 }))
    );
}

#[test]
fn remove_of_an_absent_key_fails() {
    let mut index = InternalMap::new();
    assert_eq!(index.remove("a"), Err(KvsError::KeyNotFound));
    index.set("a", 1, 0, 5).unwrap();
    index.remove("a").unwrap();
    assert_eq!(index.remove("a"), Err(KvsError::KeyNotFound));
}
