use kvs::Command;
use kvs::DecodeError;

fn set(key: &str, value: &str) -> Command {
    Command::SetValue { key: key.to_owned(), value: value.to_owned() }
}

fn remove(key: &str) -> Command {
    Command::Remove { key: key.to_owned() }
}

fn encode(command: &Command) -> Vec<u8> {
    let mut bytes = Vec::new();
    command.to_writer(&mut bytes);
    bytes
}

#[test]
fn set_record_has_the_documented_layout() {
    let bytes = encode(&set("ab", "xyz"));
    let expected: Vec<u8> = vec![
        0, 0, 0, 0, // tag
        2, 0, 0, 0, 0, 0, 0, 0, b'a', b'b', // key
        3, 0, 0, 0, 0, 0, 0, 0, b'x', b'y', b'z', // value
    ];
    assert_eq!(bytes, expected);
}

#[test]
fn remove_record_has_the_documented_layout() {
    let bytes = encode(&remove("ab"));
    let expected: Vec<u8> = vec![1, 0, 0, 0, 2, 0, 0, 0, 0, 0, 0, 0, b'a', b'b'];
    assert_eq!(bytes, expected);
}

#[test]
fn to_writer_appends_behind_what_is_there() {
    let mut bytes = vec![9u8, 9, 9];
    remove("k").to_writer(&mut bytes);
    assert_eq!(&bytes[..3], &[9u8, 9, 9]);
    assert_eq!(bytes.len(), 3 + 4 + 8 + 1);
    assert_eq!(Command::from_reader(&bytes, 3), Ok((remove("k"), bytes.len())));
}

#[test]
fn records_match_bincode() {
    let ours = encode(&set("key", "value"));
    let theirs = bincode::serialize(&(0u32, "key", "value")).unwrap();
    assert_eq!(ours, theirs);
    let ours = encode(&remove("key"));
    let theirs = bincode::serialize(&(1u32, "key")).unwrap();
    assert_eq!(ours, theirs);
}

#[test]
fn bincode_reads_our_records() {
    let bytes = encode(&set("grüße", "こんにちは"));
    let (tag, key, value): (u32, String, String) = bincode::deserialize(&bytes).unwrap();
    assert_eq!(tag, 0);
    assert_eq!(key, "grüße");
    assert_eq!(value, "こんにちは");
}

#[test]
fn we_read_bincode_records() {
    let bytes = bincode::serialize(&(0u32, "k", "v")).unwrap();
    assert_eq!(Command::from_reader(&bytes, 0), Ok((set("k", "v"), bytes.len())));
}

#[test]
fn round_trip_of_a_stream() {
    let commands = vec![set("a", "1"), remove("a"), set("", ""), set("b", "two"), remove("")];
    let mut bytes = Vec::new();
    for command in &commands {
        command.to_writer(&mut bytes);
    }
    let mut pos = 0;
    let mut read = Vec::new();
    loop {
        match Command::from_reader(&bytes, pos) {
            Ok((command, next)) => {
                assert!(next > pos);
                read.push(command);
                pos = next;
            }
            Err(e) => {
                assert_eq!(e, DecodeError::EndOfStream);
                break;
            }
        }
    }
    assert_eq!(read, commands);
    assert_eq!(pos, bytes.len());
}

#[test]
fn empty_key_and_value_round_trip() {
    let bytes = encode(&set("", ""));
    assert_eq!(bytes.len(), 20);
    assert_eq!(Command::from_reader(&bytes, 0), Ok((set("", ""), 20)));
}

#[test]
fn arbitrary_utf8_round_trips() {
    let key = "ключ\u{0}\u{10FFFF}🔑";
    let value = "значение\n\t\"'\\ \u{7f}\u{80}\u{7ff}\u{800}\u{ffff}\u{10000}";
    let bytes = encode(&set(key, value));
    assert_eq!(Command::from_reader(&bytes, 0), Ok((set(key, value), bytes.len())));
}

#[test]
fn every_cut_of_a_record_is_end_of_stream() {
    let mut bytes = encode(&remove("first"));
    let start = bytes.len();
    set("key", "välue").to_writer(&mut bytes);
    for end in start..bytes.len() {
        assert_eq!(Command::from_reader(&bytes[..end], start), Err(DecodeError::EndOfStream));
    }
    assert!(Command::from_reader(&bytes, start).is_ok());
}

#[test]
fn reading_at_or_beyond_the_end_is_end_of_stream() {
    let bytes = encode(&remove("k"));
    assert_eq!(Command::from_reader(&bytes, bytes.len()), Err(DecodeError::EndOfStream));
    assert_eq!(Command::from_reader(&bytes, bytes.len() + 7), Err(DecodeError::EndOfStream));
    assert_eq!(Command::from_reader(&[], 0), Err(DecodeError::EndOfStream));
}

#[test]
fn unknown_tag_is_corrupt() {
    let mut bytes = encode(&remove("k"));
    bytes[0] = 2;
    assert_eq!(Command::from_reader(&bytes, 0), Err(DecodeError::Corrupt));
    bytes[0] = 0;
    bytes[3] = 1;
    assert_eq!(Command::from_reader(&bytes, 0), Err(DecodeError::Corrupt));
}

#[test]
fn bytes_that_are_not_utf8_are_corrupt() {
    let mut bytes = encode(&set("k", "v"));
    let last = bytes.len() - 1;
    bytes[last] = 0xff;
    assert_eq!(Command::from_reader(&bytes, 0), Err(DecodeError::Corrupt));
    let mut bytes = encode(&remove("k"));
    bytes[12] = 0xc0;
    assert_eq!(Command::from_reader(&bytes, 0), Err(DecodeError::Corrupt));
}

#[test]
fn a_length_beyond_the_end_is_end_of_stream() {
    let mut bytes = encode(&remove("k"));
    bytes[11] = 0x80;
    assert_eq!(Command::from_reader(&bytes, 0), Err(DecodeError::EndOfStream));
}

#[test]
fn key_names_the_key() {
    assert_eq!(set("a", "b").key(), "a");
    assert_eq!(remove("c").key(), "c");
}
