//! The log record and its byte encoding.
//!
//! A record is a tag followed by its fields:
//!
//! ```text
//! SetValue := 00 00 00 00  field(key)  field(value)
//! Remove   := 01 00 00 00  field(key)
//! field    := length as 8 bytes, little endian, then that many bytes of UTF-8
//! ```
//!
//! This is the layout that bincode's fixed-width little-endian configuration
//! gives an enum with these two variants. It is fixed for the life of a
//! directory.

use vstd::bytes::*;
use vstd::prelude::*;
use vstd::slice::*;
use vstd::string::*;
use vstd::utf8::*;

verus! {

/// One entry of the log.
#[derive(Debug, PartialEq)]
pub enum Command {
    /// `key` now has `value`.
    SetValue { key: String, value: String },
    /// `key` has no value any more.
    Remove { key: String },
}

/// A [`Command`] as a mathematical value.
pub enum CommandView {
    SetValue { key: Seq<char>, value: Seq<char> },
    Remove { key: Seq<char> },
}

/// The tag that starts a `Set` record.
pub const TAG_SET: u32 = 0;

/// The tag that starts a `Remove` record.
pub const TAG_REMOVE: u32 = 1;

/// The encoding of one field: its length in bytes, then its UTF-8 bytes.
pub open spec fn field_encoding(text: Seq<char>) -> Seq<u8> {
    spec_u64_to_le_bytes(encode_utf8(text).len() as u64) + encode_utf8(text)
}

impl CommandView {
    /// The key that the record is about.
    pub open spec fn key(self) -> Seq<char> {
        match self {
            CommandView::SetValue { key, .. } => key,
            CommandView::Remove { key } => key,
        }
    }

    /// The number of bytes of key and value, which is what a record counts for
    /// once it is superseded.
    pub open spec fn estimated_bytes(self) -> nat {
        match self {
            CommandView::SetValue { key, value } => encode_utf8(key).len() + encode_utf8(value).len(),
            CommandView::Remove { key } => encode_utf8(key).len(),
        }
    }

    /// Every field is short enough for its length to be written in 8 bytes.
    pub open spec fn encodable(self) -> bool {
        match self {
            CommandView::SetValue { key, value } => encode_utf8(key).len() <= u64::MAX && encode_utf8(
                value,
            ).len() <= u64::MAX,
            CommandView::Remove { key } => encode_utf8(key).len() <= u64::MAX,
        }
    }

    /// The bytes of the record.
    pub open spec fn encoding(self) -> Seq<u8> {
        match self {
            CommandView::SetValue { key, value } => spec_u32_to_le_bytes(TAG_SET) + field_encoding(key)
                + field_encoding(value),
            CommandView::Remove { key } => spec_u32_to_le_bytes(TAG_REMOVE) + field_encoding(key),
        }
    }
}

impl View for Command {
    type V = CommandView;

    open spec fn view(&self) -> CommandView {
        match self {
            Command::SetValue { key, value } => CommandView::SetValue { key: key@, value: value@ },
            Command::Remove { key } => CommandView::Remove { key: key@ },
        }
    }
}

/// What reading one field at a position gives.
pub enum FieldDecoding {
    /// A whole field, and the position after it.
    Field { text: Seq<char>, next: int },
    /// The bytes end before the field does.
    EndOfStream,
    /// The field's bytes are not UTF-8.
    Corrupt,
}

/// What reading one record at a position gives.
pub enum Decoding {
    /// A whole record, and the position after it.
    Record { command: CommandView, next: int },
    /// The bytes end before the record does.
    EndOfStream,
    /// The bytes at the position are not a record.
    Corrupt,
}

/// Reads one field of `bytes` at `pos`.
pub open spec fn decode_field(bytes: Seq<u8>, pos: int) -> FieldDecoding {
    if pos + 8 > bytes.len() {
        FieldDecoding::EndOfStream
    } else {
        let n = spec_u64_from_le_bytes(bytes.subrange(pos, pos + 8)) as int;
        if pos + 8 + n > bytes.len() {
            FieldDecoding::EndOfStream
        } else {
            let raw = bytes.subrange(pos + 8, pos + 8 + n);
            if valid_utf8(raw) {
                FieldDecoding::Field { text: decode_utf8(raw), next: pos + 8 + n }
            } else {
                FieldDecoding::Corrupt
            }
        }
    }
}

/// Reads one record of `bytes` at `pos`.
pub open spec fn decode_at(bytes: Seq<u8>, pos: int) -> Decoding {
    if pos + 4 > bytes.len() {
        Decoding::EndOfStream
    } else {
        let tag = spec_u32_from_le_bytes(bytes.subrange(pos, pos + 4));
        if tag == TAG_SET {
            match decode_field(bytes, pos + 4) {
                FieldDecoding::Field { text: key, next } => match decode_field(bytes, next) {
                    FieldDecoding::Field { text: value, next: end } => Decoding::Record {
                        command: CommandView::SetValue { key, value },
                        next: end,
                    },
                    FieldDecoding::EndOfStream => Decoding::EndOfStream,
                    FieldDecoding::Corrupt => Decoding::Corrupt,
                },
                FieldDecoding::EndOfStream => Decoding::EndOfStream,
                FieldDecoding::Corrupt => Decoding::Corrupt,
            }
        } else if tag == TAG_REMOVE {
            match decode_field(bytes, pos + 4) {
                FieldDecoding::Field { text: key, next } => Decoding::Record {
                    command: CommandView::Remove { key },
                    next,
                },
                FieldDecoding::EndOfStream => Decoding::EndOfStream,
                FieldDecoding::Corrupt => Decoding::Corrupt,
            }
        } else {
            Decoding::Corrupt
        }
    }
}

/// Why no record could be read.
#[derive(Debug, Clone, Copy, PartialEq, Eq, Structural)]
pub enum DecodeError {
    /// The bytes end before the record does.
    EndOfStream,
    /// The bytes at the position are not a record.
    Corrupt,
}

/// The result of [`Command::from_reader`] as a mathematical value.
pub open spec fn decoding_of(r: Result<(Command, usize), DecodeError>) -> Decoding {
    match r {
        Ok((command, next)) => Decoding::Record { command: command@, next: next as int },
        Err(DecodeError::EndOfStream) => Decoding::EndOfStream,
        Err(DecodeError::Corrupt) => Decoding::Corrupt,
    }
}

/// The result of reading a field as a mathematical value.
pub open spec fn field_decoding_of(r: Result<(String, usize), DecodeError>) -> FieldDecoding {
    match r {
        Ok((text, next)) => FieldDecoding::Field { text: text@, next: next as int },
        Err(DecodeError::EndOfStream) => FieldDecoding::EndOfStream,
        Err(DecodeError::Corrupt) => FieldDecoding::Corrupt,
    }
}

/// `String::from_utf8` of std: the string that the bytes spell, where they are
/// well-formed UTF-8, and nothing where they are not.
#[verifier::external_body]
fn string_from_utf8(bytes: Vec<u8>) -> (r: Option<String>)
    ensures
        r is Some <==> valid_utf8(bytes@),
        r matches Some(text) ==> text@ == decode_utf8(bytes@),
{
    String::from_utf8(bytes).ok()
}

/// Appends the encoding of one field to `writer`.
fn write_field(text: &String, writer: &mut Vec<u8>)
    ensures
        final(writer)@ == old(writer)@ + field_encoding(text@),
        encode_utf8(text@).len() <= usize::MAX,
{
    let mut raw = text.as_str().as_bytes_vec();
    let n = raw.len();
    let mut length = u64_to_le_bytes(n as u64);
    writer.append(&mut length);
    writer.append(&mut raw);
    assert(final(writer)@ == old(writer)@ + field_encoding(text@));
}

/// Reads one field of `reader` at `pos`.
fn read_field(reader: &[u8], pos: usize) -> (r: Result<(String, usize), DecodeError>)
    requires
        pos <= reader@.len(),
    ensures
        field_decoding_of(r) == decode_field(reader@, pos as int),
{
    let len = reader.len();
    if len - pos < 8 {
        return Err(DecodeError::EndOfStream);
    }
    let n = u64_from_le_bytes(slice_subrange(reader, pos, pos + 8));
    let start = pos + 8;
    if n > (len - start) as u64 {
        return Err(DecodeError::EndOfStream);
    }
    let end = start + n as usize;
    match string_from_utf8(slice_to_vec(slice_subrange(reader, start, end))) {
        Some(text) => Ok((text, end)),
        None => Err(DecodeError::Corrupt),
    }
}

impl Command {
    /// The key that the record is about.
    pub fn key(&self) -> (key: &String)
        ensures
            key@ == self@.key(),
    {
        match self {
            Command::SetValue { key, .. } => key,
            Command::Remove { key } => key,
        }
    }

    /// Appends the record's encoding to `writer`.
    pub fn to_writer(&self, writer: &mut Vec<u8>)
        ensures
            final(writer)@ == old(writer)@ + self@.encoding(),
            self@.encodable(),
            self@.encoding().len() == 4 + 8 + self@.estimated_bytes() + (if self is SetValue {
                8int
            } else {
                0int
            }),
            self@.estimated_bytes() <= usize::MAX,
    {
        proof {
            lemma_auto_spec_u32_to_from_le_bytes();
            lemma_auto_spec_u64_to_from_le_bytes();
        }
        match self {
            Command::SetValue { key, value } => {
                let mut tag = u32_to_le_bytes(TAG_SET);
                writer.append(&mut tag);
                write_field(key, writer);
                write_field(value, writer);
                assert(writer@ == old(writer)@ + self@.encoding());
                let total = writer.len();
                assert(self@.estimated_bytes() <= total);
            },
            Command::Remove { key } => {
                let mut tag = u32_to_le_bytes(TAG_REMOVE);
                writer.append(&mut tag);
                write_field(key, writer);
                assert(writer@ == old(writer)@ + self@.encoding());
            },
        }
    }

    /// Reads the record of `reader` that starts at `pos`, and says where the
    /// next one starts.
    ///
    /// A record that the end of `reader` cuts short is reported as
    /// [`DecodeError::EndOfStream`], and so is a position at or beyond the end.
    pub fn from_reader(reader: &[u8], pos: usize) -> (r: Result<(Command, usize), DecodeError>)
        ensures
            decoding_of(r) == decode_at(reader@, pos as int),
    {
        let len = reader.len();
        if pos > len || len - pos < 4 {
            return Err(DecodeError::EndOfStream);
        }
        let tag = u32_from_le_bytes(slice_subrange(reader, pos, pos + 4));
        if tag == TAG_SET {
            let (key, next) = match read_field(reader, pos + 4) {
                Ok(field) => field,
                Err(e) => { return Err(e); },
            };
            match read_field(reader, next) {
                Ok((value, end)) => Ok((Command::SetValue { key, value }, end)),
                Err(e) => Err(e),
            }
        } else if tag == TAG_REMOVE {
            match read_field(reader, pos + 4) {
                Ok((key, next)) => Ok((Command::Remove { key }, next)),
                Err(e) => Err(e),
            }
        } else {
            Err(DecodeError::Corrupt)
        }
    }
}


/// A field that lies whole in `bytes` at `pos` is read back as it was written.
pub proof fn lemma_decode_field_written(bytes: Seq<u8>, pos: int, text: Seq<char>)
    requires
        0 <= pos,
        encode_utf8(text).len() <= u64::MAX,
        pos + field_encoding(text).len() <= bytes.len(),
        bytes.subrange(pos, pos + field_encoding(text).len()) == field_encoding(text),
    ensures
        field_encoding(text).len() == 8 + encode_utf8(text).len(),
        decode_field(bytes, pos) == (FieldDecoding::Field {
            text,
            next: pos + field_encoding(text).len(),
        }),
{
    broadcast use {encode_utf8_valid_utf8, encode_utf8_decode_utf8};

    lemma_auto_spec_u64_to_from_le_bytes();
    let raw = encode_utf8(text);
    let n = raw.len() as u64;
    let field = field_encoding(text);
    assert(field.len() == 8 + raw.len());
    assert(bytes.subrange(pos, pos + 8) =~= field.subrange(0, 8));
    assert(field.subrange(0, 8) =~= spec_u64_to_le_bytes(n));
    assert(bytes.subrange(pos + 8, pos + 8 + n) =~= field.subrange(8, 8 + n));
    assert(field.subrange(8, 8 + n) =~= raw);
}

/// A field that was read lies in `bytes` as its own encoding.
pub proof fn lemma_decoded_field_bytes(bytes: Seq<u8>, pos: int)
    requires
        0 <= pos,
        decode_field(bytes, pos) is Field,
    ensures
        ({
            let text = decode_field(bytes, pos)->text;
            let next = decode_field(bytes, pos)->next;
            &&& encode_utf8(text).len() <= u64::MAX
            &&& next == pos + field_encoding(text).len()
            &&& next == pos + 8 + encode_utf8(text).len()
            &&& next <= bytes.len()
            &&& bytes.subrange(pos, next) == field_encoding(text)
        }),
{
    broadcast use decode_utf8_encode_utf8;

    lemma_auto_spec_u64_to_from_le_bytes();
    let head = bytes.subrange(pos, pos + 8);
    let n = spec_u64_from_le_bytes(head);
    let raw = bytes.subrange(pos + 8, pos + 8 + n);
    let text = decode_utf8(raw);
    assert(encode_utf8(text) == raw);
    assert(spec_u64_to_le_bytes(n) == head);
    assert(bytes.subrange(pos, pos + 8 + n) =~= head + raw);
}

/// A field that the end of `bytes` cuts short reads as the end of the stream.
pub proof fn lemma_decode_field_cut(bytes: Seq<u8>, pos: int, text: Seq<char>, cut: int)
    requires
        0 <= pos,
        encode_utf8(text).len() <= u64::MAX,
        0 <= cut < field_encoding(text).len(),
        bytes.len() == pos + cut,
        bytes.subrange(pos, pos + cut) == field_encoding(text).subrange(0, cut),
    ensures
        decode_field(bytes, pos) is EndOfStream,
{
    lemma_auto_spec_u64_to_from_le_bytes();
    let raw = encode_utf8(text);
    let n = raw.len() as u64;
    let field = field_encoding(text);
    assert(field.len() == 8 + raw.len());
    if cut >= 8 {
        assert(bytes.subrange(pos, pos + 8) =~= bytes.subrange(pos, pos + cut).subrange(0, 8));
        assert(field.subrange(0, cut).subrange(0, 8) =~= spec_u64_to_le_bytes(n));
    }
}

/// Round trip: a record written anywhere in a stream is read back as itself,
/// and reading it ends where its bytes end.
pub proof fn lemma_decode_encoded(prefix: Seq<u8>, command: CommandView, suffix: Seq<u8>)
    requires
        command.encodable(),
    ensures
        decode_at(prefix + command.encoding() + suffix, prefix.len() as int) == (Decoding::Record {
            command,
            next: (prefix.len() + command.encoding().len()) as int,
        }),
{
    lemma_auto_spec_u32_to_from_le_bytes();
    lemma_auto_spec_u64_to_from_le_bytes();
    let bytes = prefix + command.encoding() + suffix;
    let pos = prefix.len() as int;
    let encoding = command.encoding();
    assert(bytes.subrange(pos, pos + encoding.len()) =~= encoding);
    match command {
        CommandView::SetValue { key, value } => {
            let tag = spec_u32_to_le_bytes(TAG_SET);
            let fk = field_encoding(key);
            let fv = field_encoding(value);
            assert(bytes.subrange(pos, pos + 4) =~= tag);
            assert(bytes.subrange(pos + 4, pos + 4 + fk.len()) =~= fk);
            lemma_decode_field_written(bytes, pos + 4, key);
            assert(bytes.subrange(pos + 4 + fk.len(), pos + 4 + fk.len() + fv.len()) =~= fv);
            lemma_decode_field_written(bytes, pos + 4 + fk.len(), value);
        },
        CommandView::Remove { key } => {
            let tag = spec_u32_to_le_bytes(TAG_REMOVE);
            let fk = field_encoding(key);
            assert(bytes.subrange(pos, pos + 4) =~= tag);
            assert(bytes.subrange(pos + 4, pos + 4 + fk.len()) =~= fk);
            lemma_decode_field_written(bytes, pos + 4, key);
        },
    }
}

/// The codec is one to one: a record that was read lies in the stream as its
/// own encoding, from the position it was read at to the position after it.
pub proof fn lemma_decoded_bytes(bytes: Seq<u8>, pos: int)
    requires
        0 <= pos,
        decode_at(bytes, pos) is Record,
    ensures
        ({
            let command = decode_at(bytes, pos)->command;
            let next = decode_at(bytes, pos)->next;
            &&& command.encodable()
            &&& next == pos + command.encoding().len()
            &&& pos + 12 <= next <= bytes.len()
            &&& command.estimated_bytes() + 12 <= next - pos
            &&& bytes.subrange(pos, next) == command.encoding()
        }),
{
    lemma_auto_spec_u32_to_from_le_bytes();
    let head = bytes.subrange(pos, pos + 4);
    let tag = spec_u32_from_le_bytes(head);
    assert(spec_u32_to_le_bytes(tag) == head);
    lemma_decoded_field_bytes(bytes, pos + 4);
    let key = decode_field(bytes, pos + 4)->text;
    let after_key = decode_field(bytes, pos + 4)->next;
    if tag == TAG_SET {
        lemma_decoded_field_bytes(bytes, after_key);
        let next = decode_field(bytes, after_key)->next;
        assert(bytes.subrange(pos, next) =~= head + bytes.subrange(pos + 4, after_key)
            + bytes.subrange(after_key, next));
    } else {
        assert(bytes.subrange(pos, after_key) =~= head + bytes.subrange(pos + 4, after_key));
    }
}

/// Reading a record looks at no byte outside it: where two streams hold the
/// same bytes from `pos` to the record's end, they hold the same record.
pub proof fn lemma_decode_same_bytes(a: Seq<u8>, b: Seq<u8>, pos: int)
    requires
        0 <= pos,
        decode_at(a, pos) is Record,
        decode_at(a, pos)->next <= b.len(),
        b.subrange(pos, decode_at(a, pos)->next) == a.subrange(pos, decode_at(a, pos)->next),
    ensures
        decode_at(b, pos) == decode_at(a, pos),
{
    lemma_decoded_bytes(a, pos);
    let command = decode_at(a, pos)->command;
    let next = decode_at(a, pos)->next;
    let prefix = b.subrange(0, pos);
    let suffix = b.subrange(next, b.len() as int);
    lemma_decode_encoded(prefix, command, suffix);
    assert(prefix + command.encoding() + suffix =~= b);
}

/// A record that the end of the stream cuts short, by one byte or by more,
/// reads as the end of the stream and never as a corrupt record.
pub proof fn lemma_decode_cut(prefix: Seq<u8>, command: CommandView, cut: int)
    requires
        command.encodable(),
        0 <= cut < command.encoding().len(),
    ensures
        decode_at(prefix + command.encoding().subrange(0, cut), prefix.len() as int)
            is EndOfStream,
{
    lemma_auto_spec_u32_to_from_le_bytes();
    lemma_auto_spec_u64_to_from_le_bytes();
    let encoding = command.encoding();
    let part = encoding.subrange(0, cut);
    let bytes = prefix + part;
    let pos = prefix.len() as int;
    assert(bytes.subrange(pos, pos + cut) =~= part);
    if cut >= 4 {
        let key = command.key();
        let fk = field_encoding(key);
        assert(fk.len() == 8 + encode_utf8(key).len());
        assert(bytes.subrange(pos, pos + 4) =~= encoding.subrange(0, 4));
        assert(encoding.subrange(0, 4) =~= spec_u32_to_le_bytes(
            if command is SetValue {
                TAG_SET
            } else {
                TAG_REMOVE
            },
        ));
        if cut < 4 + fk.len() {
            assert(bytes.subrange(pos + 4, pos + cut) =~= fk.subrange(0, cut - 4));
            lemma_decode_field_cut(bytes, pos + 4, key, cut - 4);
        } else {
            assert(bytes.subrange(pos + 4, pos + 4 + fk.len()) =~= fk);
            lemma_decode_field_written(bytes, pos + 4, key);
            match command {
                CommandView::SetValue { key, value } => {
                    let fv = field_encoding(value);
                    let rest = cut - 4 - fk.len();
                    assert(bytes.subrange(pos + 4 + fk.len(), pos + cut) =~= fv.subrange(0, rest));
                    lemma_decode_field_cut(bytes, pos + 4 + fk.len(), value, rest);
                },
                CommandView::Remove { key } => {},
            }
        }
    }
}

} // verus!
