use kvs::KvStore;
use kvs::KvsError;
use kvs::LogDir;
use kvs::LogFileType;
use kvs::COMPACTION_BYTES_THRESHOLD;

fn open_empty() -> KvStore {
    KvStore::open(LogDir::new()).expect("an empty directory opens")
}

fn s(text: &str) -> String {
    text.to_owned()
}

/// A string of `len` letters that depends on `seed`.
fn noise(seed: u64, len: usize) -> String {
    let mut state = seed.wrapping_mul(6364136223846793005).wrapping_add(1442695040888963407);
    let mut out = String::with_capacity(len);
    for _ in 0..len {
        state = state.wrapping_mul(6364136223846793005).wrapping_add(1442695040888963407);
        out.push((b'a' + ((state >> 33) % 26) as u8) as char);
    }
    out
}

/// The logs of `dir`, copied into a fresh image as a new process would find
/// them on disk.
fn reload(dir: &LogDir) -> LogDir {
    let mut fresh = LogDir::new();
    for generation in dir.generations() {
        let data = dir.read(generation, LogFileType::Blessed).expect("a listed log").clone();
        fresh.add_log(generation, data);
    }
    fresh
}

#[test]
fn basic_round_trip() {
    let mut store = open_empty();
    store.set(s("a"), s("1")).unwrap();
    store.set(s("b"), s("2")).unwrap();
    assert_eq!(store.get(s("a")).unwrap(), Some(s("1")));
    assert_eq!(store.get(s("b")).unwrap(), Some(s("2")));
    assert_eq!(store.get(s("c")).unwrap(), None);
}

#[test]
fn overwrite_then_remove() {
    let mut store = open_empty();
    store.set(s("k"), s("v1")).unwrap();
    store.set(s("k"), s("v2")).unwrap();
    assert_eq!(store.get(s("k")).unwrap(), Some(s("v2")));
    store.remove(s("k")).unwrap();
    assert_eq!(store.get(s("k")).unwrap(), None);
    assert_eq!(store.remove(s("k")), Err(KvsError::KeyNotFound));
}

#[test]
fn persistence() {
    let mut store = open_empty();
    store.set(s("x"), s("hello")).unwrap();
    let dir = store.into_dir();
    let mut again = KvStore::open(reload(&dir)).unwrap();
    assert_eq!(again.get(s("x")).unwrap(), Some(s("hello")));
    again.set(s("y"), s("more")).unwrap();
    assert_eq!(again.get(s("y")).unwrap(), Some(s("more")));
}

#[test]
fn compaction_triggered() {
    let mut store = open_empty();
    let mut last: Vec<String> = vec![String::new(); 100];
    for i in 0..2000u64 {
        let slot = (i % 100) as usize;
        let value = noise(i, 10 * 1024);
        store.set(format!("k{}", slot), value.clone()).unwrap();
        last[slot] = value;
    }
    assert!(store.current_generation() > 1);
    assert!(store.dir().generations().len() <= 2);
    assert!(store.wasted_bytes() < COMPACTION_BYTES_THRESHOLD);
    for slot in 0..100usize {
        assert_eq!(store.get(format!("k{}", slot)).unwrap(), Some(last[slot].clone()));
    }
    let dir = store.into_dir();
    let again = KvStore::open(reload(&dir)).unwrap();
    for slot in 0..100usize {
        assert_eq!(again.get(format!("k{}", slot)).unwrap(), Some(last[slot].clone()));
    }
}

#[test]
fn crash_tolerance() {
    let mut store = open_empty();
    store.set(s("a"), s("1")).unwrap();
    store.set(s("b"), s("2")).unwrap();
    store.set(s("c"), s("3")).unwrap();
    let dir = store.into_dir();
    let mut data = dir.read(1, LogFileType::Blessed).unwrap().clone();
    data.pop();
    let mut cut = LogDir::new();
    cut.add_log(1, data);
    let mut again = KvStore::open(cut).expect("a cut record is no error");
    assert_eq!(again.get(s("a")).unwrap(), Some(s("1")));
    assert_eq!(again.get(s("b")).unwrap(), Some(s("2")));
    assert_eq!(again.get(s("c")).unwrap(), None);
    again.set(s("d"), s("4")).unwrap();
    assert_eq!(again.get(s("d")).unwrap(), Some(s("4")));
    assert_eq!(again.get(s("a")).unwrap(), Some(s("1")));
}

#[test]
fn large_keys() {
    let key = noise(7, 64 * 1024);
    let value = noise(8, 1024 * 1024);
    let mut store = open_empty();
    store.set(key.clone(), value.clone()).unwrap();
    assert_eq!(store.get(key.clone()).unwrap(), Some(value.clone()));
    let dir = store.into_dir();
    let again = KvStore::open(reload(&dir)).unwrap();
    assert_eq!(again.get(key).unwrap(), Some(value));
}

fn record(command: &kvs::Command) -> Vec<u8> {
    let mut bytes = Vec::new();
    command.to_writer(&mut bytes);
    bytes
}

fn set_record(key: &str, value: &str) -> Vec<u8> {
    record(&kvs::Command::SetValue { key: s(key), value: s(value) })
}

fn remove_record(key: &str) -> Vec<u8> {
    record(&kvs::Command::Remove { key: s(key) })
}

#[test]
fn open_empty_directory_has_no_keys() {
    let store = open_empty();
    assert_eq!(store.len(), 0);
    assert_eq!(store.get(s("anything")).unwrap(), None);
    assert_eq!(store.get(s("")).unwrap(), None);
    assert_eq!(store.current_generation(), 1);
    assert_eq!(store.wasted_bytes(), 0);
    assert_eq!(store.dir().generations(), vec![1]);
    assert_eq!(store.reader_count(), 1);
}

#[test]
fn remove_of_a_key_never_set_fails() {
    let mut store = open_empty();
    store.set(s("other"), s("value")).unwrap();
    assert_eq!(store.remove(s("never")), Err(KvsError::KeyNotFound));
    assert_eq!(store.get(s("other")).unwrap(), Some(s("value")));
    assert_eq!(store.len(), 1);
}

#[test]
fn same_set_twice_only_adds_waste() {
    let mut store = open_empty();
    store.set(s("k"), s("value")).unwrap();
    assert_eq!(store.wasted_bytes(), 0);
    store.set(s("k"), s("value")).unwrap();
    assert_eq!(store.get(s("k")).unwrap(), Some(s("value")));
    assert_eq!(store.len(), 1);
    assert_eq!(store.wasted_bytes(), 6);
}

#[test]
fn wasted_bytes_count_keys_and_values() {
    let mut store = open_empty();
    store.set(s("key"), s("value")).unwrap();
    store.set(s("key"), s("longer value")).unwrap();
    assert_eq!(store.wasted_bytes(), 3 + 5);
    store.remove(s("key")).unwrap();
    assert_eq!(store.wasted_bytes(), 3 + 5 + 3 + 12);
    store.set(s("é"), s("ü")).unwrap();
    store.set(s("é"), s("")).unwrap();
    assert_eq!(store.wasted_bytes(), 3 + 5 + 3 + 12 + 2 + 2);
}

#[test]
fn empty_key_and_empty_value_are_legal() {
    let mut store = open_empty();
    store.set(s(""), s("")).unwrap();
    assert_eq!(store.get(s("")).unwrap(), Some(s("")));
    store.set(s("k"), s("")).unwrap();
    store.set(s(""), s("v")).unwrap();
    let dir = store.into_dir();
    let mut again = KvStore::open(reload(&dir)).unwrap();
    assert_eq!(again.get(s("")).unwrap(), Some(s("v")));
    assert_eq!(again.get(s("k")).unwrap(), Some(s("")));
    again.remove(s("")).unwrap();
    assert_eq!(again.get(s("")).unwrap(), None);
}

#[test]
fn arbitrary_utf8_keys_and_values() {
    let key = "ключ 🔑\u{0}\n";
    let value = "значение \u{10FFFF}\u{7ff}\"'\\";
    let mut store = open_empty();
    store.set(s(key), s(value)).unwrap();
    assert_eq!(store.get(s(key)).unwrap(), Some(s(value)));
    let dir = store.into_dir();
    let again = KvStore::open(reload(&dir)).unwrap();
    assert_eq!(again.get(s(key)).unwrap(), Some(s(value)));
}

#[test]
fn last_write_wins_over_a_series() {
    let mut store = open_empty();
    store.set(s("a"), s("1")).unwrap();
    store.set(s("b"), s("2")).unwrap();
    store.remove(s("a")).unwrap();
    store.set(s("c"), s("3")).unwrap();
    store.set(s("a"), s("4")).unwrap();
    store.set(s("b"), s("5")).unwrap();
    store.remove(s("c")).unwrap();
    assert!(store.remove(s("d")).is_err());
    assert_eq!(store.get(s("a")).unwrap(), Some(s("4")));
    assert_eq!(store.get(s("b")).unwrap(), Some(s("5")));
    assert_eq!(store.get(s("c")).unwrap(), None);
    assert_eq!(store.get(s("d")).unwrap(), None);
    assert_eq!(store.len(), 2);
}

#[test]
fn reopened_store_is_the_same_store() {
    let mut store = open_empty();
    store.set(s("a"), s("1")).unwrap();
    store.set(s("b"), s("2")).unwrap();
    store.set(s("a"), s("3")).unwrap();
    store.remove(s("b")).unwrap();
    let wasted = store.wasted_bytes();
    let generation = store.current_generation();
    let dir = store.into_dir();
    let again = KvStore::open(reload(&dir)).unwrap();
    assert_eq!(again.wasted_bytes(), wasted);
    assert_eq!(again.current_generation(), generation);
    assert_eq!(again.len(), 1);
    assert_eq!(again.get(s("a")).unwrap(), Some(s("3")));
    assert_eq!(again.get(s("b")).unwrap(), None);
    assert_eq!(again.reader_count(), again.dir().generations().len());
}

#[test]
fn open_reads_generations_in_ascending_order() {
    let mut dir = LogDir::new();
    let mut newer = set_record("k", "new");
    newer.extend(set_record("only-new", "x"));
    dir.add_log(7, newer);
    let mut older = set_record("k", "old");
    older.extend(set_record("gone", "y"));
    dir.add_log(3, older);
    dir.add_log(9, remove_record("gone"));
    let mut store = KvStore::open(dir).unwrap();
    assert_eq!(store.current_generation(), 9);
    assert_eq!(store.get(s("k")).unwrap(), Some(s("new")));
    assert_eq!(store.get(s("only-new")).unwrap(), Some(s("x")));
    assert_eq!(store.get(s("gone")).unwrap(), None);
    assert_eq!(store.wasted_bytes(), 1 + 3 + 4 + 1);
    assert_eq!(store.reader_count(), 3);
    store.set(s("w"), s("z")).unwrap();
    assert_eq!(store.dir().read(9, LogFileType::Blessed).unwrap().len(), 16 + 22);
}

#[test]
fn open_fails_on_a_corrupt_record_in_the_middle() {
    let mut data = set_record("a", "1");
    let mut bad = set_record("b", "2");
    bad[0] = 9;
    data.extend(bad);
    data.extend(set_record("c", "3"));
    let mut dir = LogDir::new();
    dir.add_log(1, data);
    assert_eq!(KvStore::open(dir).err(), Some(KvsError::Codec));
}

#[test]
fn open_fails_on_a_remove_of_an_absent_key() {
    let mut data = set_record("a", "1");
    data.extend(remove_record("b"));
    let mut dir = LogDir::new();
    dir.add_log(1, data);
    assert_eq!(KvStore::open(dir).err(), Some(KvsError::KeyNotFound));
}

#[test]
fn open_discards_every_cut_of_the_last_record() {
    let mut whole = set_record("a", "1");
    whole.extend(remove_record("a"));
    whole.extend(set_record("b", "2"));
    let last = set_record("c", "three");
    for cut in 0..last.len() {
        let mut data = whole.clone();
        data.extend_from_slice(&last[..cut]);
        let mut dir = LogDir::new();
        dir.add_log(4, data);
        let store = KvStore::open(dir).expect("a cut record is no error");
        assert_eq!(store.get(s("a")).unwrap(), None);
        assert_eq!(store.get(s("b")).unwrap(), Some(s("2")));
        assert_eq!(store.get(s("c")).unwrap(), None);
        assert_eq!(store.len(), 1);
        assert_eq!(store.wasted_bytes(), 2);
    }
}

#[test]
fn error_messages() {
    assert_eq!(KvsError::KeyNotFound.message(), "Key not found");
    assert_eq!(KvsError::Codec.message(), "Corrupt record in log");
    assert_eq!(KvsError::IndexInconsistent.message(), "Index does not match the log");
    assert!(KvsError::CompactionFailed(kvs::CompactionCause::GenerationsExhausted)
        .message()
        .starts_with("Compaction failed"));
    assert!(KvsError::CompactionFailed(kvs::CompactionCause::UnreachableRecords)
        .message()
        .starts_with("Compaction failed"));
}
