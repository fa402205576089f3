//! Generation numbers and the names of the files that hold them.
//!
//! The log of generation `g` is the file `<g>.log`, with `<g>` in decimal.
//! While a compaction writes generation `g`, its file is `<g>.tmp`; such a
//! file is no log yet and is never listed.

use vstd::prelude::*;
use vstd::string::*;

verus! {

/// What a generation's file is at the moment.
#[derive(Debug, Clone, Copy, PartialEq, Eq, Structural)]
pub enum LogFileType {
    /// Written by a compaction that is under way; not read when the store is
    /// opened.
    Temporary,
    /// A log: read when the store is opened, and open to reads and writes.
    Blessed,
}

/// The character of a decimal digit.
pub open spec fn digit_char(d: int) -> char {
    if d == 0 {
        '0'
    } else if d == 1 {
        '1'
    } else if d == 2 {
        '2'
    } else if d == 3 {
        '3'
    } else if d == 4 {
        '4'
    } else if d == 5 {
        '5'
    } else if d == 6 {
        '6'
    } else if d == 7 {
        '7'
    } else if d == 8 {
        '8'
    } else {
        '9'
    }
}

/// Whether `c` is one of `0` to `9`.
pub open spec fn is_digit(c: char) -> bool {
    '0' <= c <= '9'
}

/// The value of the digit `c`.
pub open spec fn digit_value(c: char) -> int {
    c as int - '0' as int
}

/// The decimal numeral of `n`, without leading zeros.
pub open spec fn decimal(n: nat) -> Seq<char>
    decreases n,
{
    if n < 10 {
        seq![digit_char(n as int)]
    } else {
        decimal(n / 10).push(digit_char((n % 10) as int))
    }
}

/// The number that `text` spells in decimal, if it is one digit or more and
/// nothing else.
pub open spec fn decimal_value(text: Seq<char>) -> Option<nat>
    decreases text.len(),
{
    if text.len() == 0 || !is_digit(text.last()) {
        None
    } else if text.len() == 1 {
        Some(digit_value(text.last()) as nat)
    } else {
        match decimal_value(text.drop_last()) {
            Some(high) => Some((high * 10 + digit_value(text.last())) as nat),
            None => None,
        }
    }
}

/// The extension of a log file.
pub open spec fn log_extension() -> Seq<char> {
    seq!['.', 'l', 'o', 'g']
}

/// The extension of a file that a compaction is writing.
pub open spec fn tmp_extension() -> Seq<char> {
    seq!['.', 't', 'm', 'p']
}

/// The name of the file of `generation`.
pub open spec fn log_name(generation: u64, log_file_type: LogFileType) -> Seq<char> {
    decimal(generation as nat) + match log_file_type {
        LogFileType::Temporary => tmp_extension(),
        LogFileType::Blessed => log_extension(),
    }
}

/// The generation whose log the file called `name` is, if it is a log: its
/// name is a decimal number that fits in 64 bits, followed by `.log`.
pub open spec fn parse_log_name(name: Seq<char>) -> Option<u64> {
    if name.len() >= 4 && name.subrange(name.len() - 4, name.len() as int) == log_extension() {
        match decimal_value(name.subrange(0, name.len() - 4)) {
            Some(n) => if n <= u64::MAX {
                Some(n as u64)
            } else {
                None
            },
            None => None,
        }
    } else {
        None
    }
}

/// The generations of the logs among `names`, in the order of the names.
pub open spec fn generations_of(names: Seq<String>) -> Seq<u64>
    decreases names.len(),
{
    if names.len() == 0 {
        Seq::empty()
    } else {
        let earlier = generations_of(names.drop_last());
        match parse_log_name(names.last()@) {
            Some(generation) => earlier.push(generation),
            None => earlier,
        }
    }
}

/// Whether `s` is in ascending order.
pub open spec fn ascending(s: Seq<u64>) -> bool {
    forall|i: int, j: int| 0 <= i <= j < s.len() ==> s[i] <= s[j]
}

/// The numeral of a single digit.
fn digit_text(d: u8) -> (text: &'static str)
    requires
        d < 10,
    ensures
        text@ == seq![digit_char(d as int)],
{
    proof {
        reveal_strlit("0");
        reveal_strlit("1");
        reveal_strlit("2");
        reveal_strlit("3");
        reveal_strlit("4");
        reveal_strlit("5");
        reveal_strlit("6");
        reveal_strlit("7");
        reveal_strlit("8");
        reveal_strlit("9");
    }
    let text = if d == 0 {
        "0"
    } else if d == 1 {
        "1"
    } else if d == 2 {
        "2"
    } else if d == 3 {
        "3"
    } else if d == 4 {
        "4"
    } else if d == 5 {
        "5"
    } else if d == 6 {
        "6"
    } else if d == 7 {
        "7"
    } else if d == 8 {
        "8"
    } else {
        "9"
    };
    assert(text@ =~= seq![digit_char(d as int)]);
    text
}

/// The decimal numeral of `n`.
fn decimal_text(n: u64) -> (text: String)
    ensures
        text@ == decimal(n as nat),
    decreases n,
{
    if n < 10 {
        String::from_str(digit_text(n as u8))
    } else {
        let mut text = decimal_text(n / 10);
        text.append(digit_text((n % 10) as u8));
        text
    }
}

/// The path of the file of generation `gen`, relative to the directory of the
/// store: the generation in decimal, then `.log` for a log and `.tmp` for a
/// file that a compaction is writing.
pub fn log_path(gen: u64, log_file_type: LogFileType) -> (path: String)
    ensures
        path@ == log_name(gen, log_file_type),
{
    proof {
        reveal_strlit(".tmp");
        reveal_strlit(".log");
    }
    let mut path = decimal_text(gen);
    match log_file_type {
        LogFileType::Temporary => {
            assert(".tmp"@ =~= tmp_extension());
            path.append(".tmp");
        },
        LogFileType::Blessed => {
            assert(".log"@ =~= log_extension());
            path.append(".log");
        },
    }
    path
}


/// A numeral consists of digits, and so does each of its first parts, whose
/// values never exceed that of the whole.
pub proof fn lemma_decimal_value_parts(text: Seq<char>, i: int)
    requires
        decimal_value(text) is Some,
        0 < i <= text.len(),
    ensures
        is_digit(text[i - 1]),
        decimal_value(text.subrange(0, i)) is Some,
        decimal_value(text.subrange(0, i))->0 <= decimal_value(text)->0,
    decreases text.len(),
{
    if i == text.len() {
        assert(text.subrange(0, i) =~= text);
    } else {
        lemma_decimal_value_parts(text.drop_last(), i);
        assert(text.drop_last().subrange(0, i) =~= text.subrange(0, i));
    }
}

/// Reading one more digit: ten times what was read, plus the digit.
pub proof fn lemma_decimal_value_step(text: Seq<char>, i: int)
    requires
        0 <= i < text.len(),
        is_digit(text[i]),
        i > 0 ==> decimal_value(text.subrange(0, i)) is Some,
    ensures
        decimal_value(text.subrange(0, i + 1)) == Some(
            ((if i > 0 {
                decimal_value(text.subrange(0, i))->0
            } else {
                0
            }) * 10 + digit_value(text[i])) as nat,
        ),
{
    assert(text.subrange(0, i + 1).drop_last() =~= text.subrange(0, i));
}

/// A numeral spells the number it was made from.
pub proof fn lemma_decimal_round_trip(n: nat)
    ensures
        decimal(n).len() >= 1,
        n >= 10 ==> decimal(n).len() >= 2,
        decimal_value(decimal(n)) == Some(n),
    decreases n,
{
    if n >= 10 {
        lemma_decimal_round_trip(n / 10);
        assert(decimal(n).drop_last() =~= decimal(n / 10));
    }
}

/// The name of a generation's log is read back as that generation, and the
/// name of its temporary file is no log's name.
pub proof fn lemma_log_name_round_trip(generation: u64)
    ensures
        parse_log_name(log_name(generation, LogFileType::Blessed)) == Some(generation),
        parse_log_name(log_name(generation, LogFileType::Temporary)) is None,
{
    lemma_decimal_round_trip(generation as nat);
    let numeral = decimal(generation as nat);
    let blessed = log_name(generation, LogFileType::Blessed);
    let temporary = log_name(generation, LogFileType::Temporary);
    assert(blessed.subrange(blessed.len() - 4, blessed.len() as int) =~= log_extension());
    assert(blessed.subrange(0, blessed.len() - 4) =~= numeral);
    assert(temporary.subrange(temporary.len() - 4, temporary.len() as int)[1] == 't');
}

/// No two files of the store share a name.
pub proof fn lemma_log_name_injective(g1: u64, t1: LogFileType, g2: u64, t2: LogFileType)
    requires
        log_name(g1, t1) == log_name(g2, t2),
    ensures
        g1 == g2,
        t1 == t2,
{
    lemma_decimal_round_trip(g1 as nat);
    lemma_decimal_round_trip(g2 as nat);
    let n1 = log_name(g1, t1);
    let n2 = log_name(g2, t2);
    assert(n1[n1.len() - 3] == n2[n2.len() - 3]);
    assert(n1.subrange(0, n1.len() - 4) =~= decimal(g1 as nat));
    assert(n2.subrange(0, n2.len() - 4) =~= decimal(g2 as nat));
}

/// A log's name is plain ASCII.
proof fn lemma_log_name_ascii(name: Seq<char>)
    requires
        parse_log_name(name) is Some,
    ensures
        vstd::utf8::is_ascii_chars(name),
{
    let stem = name.subrange(0, name.len() - 4);
    let tail = name.subrange(name.len() - 4, name.len() as int);
    assert forall|i: int| 0 <= i < name.len() implies '\0' <= #[trigger] name[i] <= '\u{7f}' by {
        if i < name.len() - 4 {
            lemma_decimal_value_parts(stem, i + 1);
            assert(stem[i] == name[i]);
        } else {
            assert(tail[i - (name.len() - 4)] == name[i]);
        }
    }
}

/// The generation whose log the file called `name` is, or nothing where the
/// name is not that of a log.
pub fn parse_generation(name: &str) -> (generation: Option<u64>)
    ensures
        generation == parse_log_name(name@),
{
    if !name.is_ascii() {
        proof {
            if parse_log_name(name@) is Some {
                lemma_log_name_ascii(name@);
            }
        }
        return None;
    }
    let n = name.unicode_len();
    if n < 4 {
        return None;
    }
    let stem_len = n - 4;
    let ghost stem = name@.subrange(0, stem_len as int);
    let ghost tail = name@.subrange(stem_len as int, n as int);
    if name.get_ascii(stem_len) != 46 || name.get_ascii(stem_len + 1) != 108 || name.get_ascii(
        stem_len + 2,
    ) != 111 || name.get_ascii(stem_len + 3) != 103 {
        assert(tail[0] == name@[stem_len as int] && tail[1] == name@[stem_len + 1] && tail[2]
            == name@[stem_len + 2] && tail[3] == name@[stem_len + 3]);
        return None;
    }
    assert(tail =~= log_extension());
    if stem_len == 0 {
        return None;
    }
    let mut value: u64 = 0;
    let mut i: usize = 0;
    while i < stem_len
        invariant
            0 <= i <= stem_len,
            stem_len + 4 == n == name@.len(),
            is_ascii(name),
            stem == name@.subrange(0, stem_len as int),
            i == 0 ==> value == 0,
            i > 0 ==> decimal_value(stem.subrange(0, i as int)) == Some(value as nat),
        decreases stem_len - i,
    {
        let b = name.get_ascii(i);
        assert(stem[i as int] == name@[i as int]);
        if b < 48 || b > 57 {
            proof {
                if decimal_value(stem) is Some {
                    lemma_decimal_value_parts(stem, i + 1);
                }
            }
            return None;
        }
        let d = (b - 48) as u64;
        assert(is_digit(stem[i as int]) && digit_value(stem[i as int]) == d);
        proof {
            lemma_decimal_value_step(stem, i as int);
        }
        if value > (u64::MAX - d) / 10 {
            proof {
                if decimal_value(stem) is Some {
                    lemma_decimal_value_parts(stem, i + 1);
                }
            }
            return None;
        }
        value = value * 10 + d;
        i = i + 1;
    }
    assert(stem.subrange(0, stem_len as int) =~= stem);
    Some(value)
}

/// Puts `generation` into the ascending list `gen_list`, behind the entries
/// that are not greater.
pub(crate) fn insert_ascending(gen_list: &mut Vec<u64>, generation: u64)
    requires
        ascending(old(gen_list)@),
    ensures
        ascending(final(gen_list)@),
        final(gen_list)@.to_multiset() == old(gen_list)@.to_multiset().insert(generation),
        final(gen_list)@.len() == old(gen_list)@.len() + 1,
        exists|at: int|
            0 <= at <= old(gen_list)@.len() && final(gen_list)@ == #[trigger] old(
                gen_list,
            )@.insert(at, generation),
{
    let mut at: usize = 0;
    while at < gen_list.len() && gen_list[at] <= generation
        invariant
            0 <= at <= gen_list.len(),
            gen_list@ == old(gen_list)@,
            forall|j: int| 0 <= j < at ==> gen_list[j] <= generation,
        decreases gen_list.len() - at,
    {
        at = at + 1;
    }
    gen_list.insert(at, generation);
    proof {
        let before = old(gen_list)@;
        let after = gen_list@;
        assert(after == before.insert(at as int, generation));
        assert(after.remove(at as int) =~= before);
        vstd::seq_lib::to_multiset_remove(after, at as int);
        after.to_multiset_ensures();
        assert(after.contains(generation)) by {
            assert(after[at as int] == generation);
        }
        assert(after.to_multiset() =~= before.to_multiset().insert(generation));
    }
}

/// The generations of the logs among the file names `names`, in ascending
/// order. Names that are not a decimal number followed by `.log` are passed
/// over.
pub fn sorted_gen_list(names: &Vec<String>) -> (gen_list: Vec<u64>)
    ensures
        ascending(gen_list@),
        gen_list@.to_multiset() == generations_of(names@).to_multiset(),
{
    let mut gen_list: Vec<u64> = Vec::new();
    let mut i: usize = 0;
    while i < names.len()
        invariant
            0 <= i <= names.len(),
            ascending(gen_list@),
            gen_list@.to_multiset() == generations_of(names@.subrange(0, i as int)).to_multiset(),
        decreases names.len() - i,
    {
        proof {
            assert(names@.subrange(0, i + 1).drop_last() =~= names@.subrange(0, i as int));
            generations_of(names@.subrange(0, i as int)).to_multiset_ensures();
        }
        match parse_generation(names[i].as_str()) {
            Some(generation) => {
                insert_ascending(&mut gen_list, generation);
            },
            None => {},
        }
        i = i + 1;
    }
    assert(names@.subrange(0, names.len() as int) =~= names@);
    gen_list
}

} // verus!
