//! Writing records: the text of a record from its parts, and records with
//! random names and values.

use crate::integer::{all_digits, decimal_digits, lemma_decimal_digits};
use crate::record::{
    byte_of, is_text, lemma_record_tape, marked, pairs_text, record_text, record_tokens,
    well_formed, Pair, Record,
};
use crate::tape::{delimiter_of, tape_of, Delimiter};
use crate::token::{TapeError, Token};
use rand::distributions::{Alphanumeric, DistString};
use rand::Rng;
use std::time::{Duration, SystemTime, UNIX_EPOCH};
use vstd::prelude::*;
use vstd::string::StringExecFns;
use vstd::utf8::is_ascii_chars;

verus! {

/// The point in time that the system clock gives.
#[verifier::external_type_specification]
#[verifier::external_body]
pub struct ExSystemTime(SystemTime);

/// True of the ASCII letters and digits.
pub open spec fn is_alphanumeric(c: char) -> bool {
    ('A' <= c <= 'Z') || ('a' <= c <= 'z') || ('0' <= c <= '9')
}

/// True of a text made of ASCII letters and digits only.
pub open spec fn is_name(chars: Seq<char>) -> bool {
    forall|i: int| 0 <= i < chars.len() ==> is_alphanumeric(#[trigger] chars[i])
}

/// The bytes of an ASCII text, one for each character.
pub open spec fn bytes_of(chars: Seq<char>) -> Seq<u8> {
    Seq::new(chars.len(), |i: int| chars[i] as u8)
}

/// `rand`'s `Alphanumeric.sample_string` on the thread's generator: a text of
/// `len` characters, each drawn from the ASCII letters and digits.
#[verifier::external_body]
fn random_alphanumeric(len: usize) -> (text: String)
    ensures
        text@.len() == len,
        is_name(text@),
{
    Alphanumeric.sample_string(&mut rand::thread_rng(), len)
}

/// `rand`'s `Rng::gen` for `u32` on the thread's generator: any value.
#[verifier::external_body]
fn random_u32() -> (value: u32) {
    rand::thread_rng().gen()
}

/// `SystemTime::now`: what the system clock reads.
#[verifier::external_body]
fn clock_now() -> (now: SystemTime) {
    SystemTime::now()
}

/// `SystemTime::duration_since` the Unix epoch: the time gone by since then,
/// or nothing for a clock that reads a time before it.
#[verifier::external_body]
fn since_epoch(now: &SystemTime) -> (elapsed: Option<Duration>) {
    now.duration_since(UNIX_EPOCH).ok()
}

/// `Duration::as_millis`: the whole milliseconds of a duration.
#[verifier::external_body]
fn whole_millis(elapsed: &Duration) -> (millis: u128) {
    elapsed.as_millis()
}

/// Appends an ASCII text to an ASCII line: the bytes of the line grow by the
/// bytes of the text.
fn push_text(line: &mut String, piece: &str)
    requires
        is_ascii_chars(old(line)@),
        is_ascii_chars(piece@),
    ensures
        is_ascii_chars(final(line)@),
        bytes_of(final(line)@) == bytes_of(old(line)@) + bytes_of(piece@),
{
    line.append(piece);
    assert(bytes_of(line@) =~= bytes_of(old(line)@) + bytes_of(piece@));
}

/// The text of one decimal digit.
fn digit_text(digit: u8) -> (text: &'static str)
    requires
        digit < 10,
    ensures
        is_ascii_chars(text@),
        bytes_of(text@) == seq![(0x30 + digit) as u8],
{
    proof {
        reveal_strlit("0");
        reveal_strlit("1");
        reveal_strlit("2");
        reveal_strlit("3");
        reveal_strlit("4");
        reveal_strlit("5");
        reveal_strlit("6");
        reveal_strlit("7");
        reveal_strlit("8");
        reveal_strlit("9");
    }
    let text = match digit {
        0 => "0",
        1 => "1",
        2 => "2",
        3 => "3",
        4 => "4",
        5 => "5",
        6 => "6",
        7 => "7",
        8 => "8",
        _ => "9",
    };
    assert(bytes_of(text@) =~= seq![(0x30 + digit) as u8]);
    text
}

/// The last `count` digits of a numeral, given least significant first.
pub open spec fn written_backwards(digits: Seq<u8>, count: int) -> Seq<u8> {
    Seq::new(count as nat, |i: int| (0x30 + digits[count - 1 - i]) as u8)
}

/// Appends the decimal numeral of a number to an ASCII line.
pub fn push_decimal(line: &mut String, n: u128)
    requires
        is_ascii_chars(old(line)@),
    ensures
        is_ascii_chars(final(line)@),
        bytes_of(final(line)@) == bytes_of(old(line)@) + decimal_digits(n as nat),
{
    // The digits come out least significant first.
    let mut digits: Vec<u8> = Vec::new();
    let mut rest: u128 = n;
    while rest >= 10
        invariant
            forall|i: int| 0 <= i < digits.len() ==> #[trigger] digits[i] < 10,
            decimal_digits(n as nat) == decimal_digits(rest as nat) + written_backwards(
                digits@,
                digits.len() as int,
            ),
        decreases rest,
    {
        let ghost before = digits@;
        let digit: u8 = (rest % 10) as u8;
        digits.push(digit);
        proof {
            let count = before.len() as int;
            assert(decimal_digits(rest as nat) == decimal_digits((rest / 10) as nat).push(
                (0x30 + digit) as u8,
            ));
            assert(decimal_digits((rest / 10) as nat).push((0x30 + digit) as u8)
                + written_backwards(before, count) =~= decimal_digits((rest / 10) as nat)
                + written_backwards(digits@, count + 1));
        }
        rest = rest / 10;
    }
    let ghost before = digits@;
    digits.push(rest as u8);
    proof {
        let count = before.len() as int;
        assert(decimal_digits(rest as nat) + written_backwards(before, count) =~= written_backwards(
            digits@,
            count + 1,
        ));
    }
    let count: usize = digits.len();
    let mut k: usize = count;
    while k > 0
        invariant
            k <= count == digits.len(),
            forall|i: int| 0 <= i < digits.len() ==> #[trigger] digits[i] < 10,
            is_ascii_chars(line@),
            bytes_of(line@) == bytes_of(old(line)@) + written_backwards(digits@, count as int).take(
                count - k,
            ),
        decreases k,
    {
        let ghost so_far = bytes_of(line@);
        k = k - 1;
        push_text(line, digit_text(digits[k]));
        proof {
            let all = written_backwards(digits@, count as int);
            assert(all.take(count - k) =~= all.take(count - k - 1).push((0x30 + digits[k as int]) as u8));
            assert(bytes_of(line@) =~= bytes_of(old(line)@) + all.take(count - k));
        }
    }
    proof {
        let all = written_backwards(digits@, count as int);
        assert(all.take(count as int) =~= all);
    }
}

/// The text of a delimiter.
fn delimiter_text(delimiter: Delimiter) -> (text: &'static str)
    ensures
        is_ascii_chars(text@),
        bytes_of(text@) == seq![byte_of(delimiter)],
{
    proof {
        reveal_strlit(" ");
        reveal_strlit(",");
        reveal_strlit("=");
        reveal_strlit("\n");
    }
    let text = match delimiter {
        Delimiter::Space => " ",
        Delimiter::Comma => ",",
        Delimiter::Equals => "=",
        Delimiter::Newline => "\n",
    };
    assert(bytes_of(text@) =~= seq![byte_of(delimiter)]);
    text
}

/// The text of the suffix marker of an integer value.
fn marker_text() -> (text: &'static str)
    ensures
        is_ascii_chars(text@),
        bytes_of(text@) == seq![0x69u8],
{
    proof {
        reveal_strlit("i");
    }
    assert(bytes_of("i"@) =~= seq![0x69u8]);
    "i"
}

/// The delimiter behind the pair at `index` of `count` pairs: a space behind
/// the last one, a comma behind the others.
fn closing_delimiter(index: usize, count: usize) -> (delimiter: Delimiter)
    requires
        index < count,
    ensures
        delimiter == if index + 1 == count {
            Delimiter::Space
        } else {
            Delimiter::Comma
        },
{
    if index + 1 == count {
        Delimiter::Space
    } else {
        Delimiter::Comma
    }
}

/// The text of the first `count` pairs of a list as they stand in a record.
pub open spec fn pairs_prefix(pairs: Seq<Pair>, count: int) -> Seq<u8>
    decreases count,
{
    if count <= 0 {
        Seq::empty()
    } else {
        pairs_prefix(pairs, count - 1) + pairs[count - 1].key + seq![0x3du8] + pairs[count
            - 1].value + seq![
            if count == pairs.len() {
                0x20u8
            } else {
                0x2cu8
            },
        ]
    }
}

/// The first pairs of a list and the rest of it make up the text of the list.
pub proof fn lemma_pairs_prefix(pairs: Seq<Pair>, count: int)
    requires
        0 <= count <= pairs.len(),
    ensures
        pairs_prefix(pairs, count) + pairs_text(pairs.skip(count)) == pairs_text(pairs),
        count == pairs.len() ==> pairs_prefix(pairs, count) == pairs_text(pairs),
    decreases count,
{
    if count == 0 {
        assert(pairs.skip(0) =~= pairs);
        assert(pairs_prefix(pairs, 0) + pairs_text(pairs) =~= pairs_text(pairs));
    } else {
        lemma_pairs_prefix(pairs, count - 1);
        let rest = pairs.skip(count - 1);
        assert(rest[0] == pairs[count - 1]);
        assert(rest.drop_first() =~= pairs.skip(count));
        assert(pairs_prefix(pairs, count) + pairs_text(pairs.skip(count)) =~= pairs_prefix(
            pairs,
            count - 1,
        ) + pairs_text(rest));
    }
    if count == pairs.len() {
        assert(pairs.skip(count) =~= Seq::<Pair>::empty());
        assert(pairs_prefix(pairs, count) + pairs_text(pairs.skip(count)) =~= pairs_prefix(
            pairs,
            count,
        ));
    }
}

/// A tag as a pair of byte strings.
pub open spec fn tag_pair(tag: (String, String)) -> Pair {
    Pair { key: bytes_of(tag.0@), value: bytes_of(tag.1@) }
}

/// A field as a pair of byte strings: its key and the numeral of its value.
pub open spec fn field_pair(field: (String, u32)) -> Pair {
    Pair { key: bytes_of(field.0@), value: decimal_digits(field.1 as nat) }
}

/// The record that the parts make up.
pub open spec fn record_of(
    measurement: Seq<char>,
    tags: Seq<(String, String)>,
    fields: Seq<(String, u32)>,
    millis: u128,
) -> Record {
    Record {
        measurement: bytes_of(measurement),
        tags: tags.map_values(|tag: (String, String)| tag_pair(tag)),
        fields: fields.map_values(|field: (String, u32)| field_pair(field)),
        timestamp: decimal_digits(millis as nat),
    }
}

/// Writes a record: the measurement, the tags with a comma before each, the
/// fields with their values as integers, and the timestamp in milliseconds
/// with a line feed behind it.
pub fn assemble_line(
    measurement: &str,
    tags: &Vec<(String, String)>,
    fields: &Vec<(String, u32)>,
    millis: u128,
) -> (line: String)
    requires
        is_ascii_chars(measurement@),
        forall|i: int|
            0 <= i < tags@.len() ==> is_ascii_chars((#[trigger] tags@[i]).0@) && is_ascii_chars(
                tags@[i].1@,
            ),
        forall|i: int| 0 <= i < fields@.len() ==> is_ascii_chars((#[trigger] fields@[i]).0@),
    ensures
        is_ascii_chars(line@),
        bytes_of(line@) == record_text(record_of(measurement@, tags@, fields@, millis)),
{
    let ghost record = record_of(measurement@, tags@, fields@, millis);
    let ghost written = marked(record.fields);
    let mut line = String::new();
    assert(bytes_of(line@) =~= Seq::<u8>::empty());
    push_text(&mut line, measurement);
    let opening = if tags.len() == 0 {
        Delimiter::Space
    } else {
        Delimiter::Comma
    };
    push_text(&mut line, delimiter_text(opening));
    let ghost head = record.measurement + seq![byte_of(opening)];
    assert(bytes_of(line@) =~= head);

    let mut j: usize = 0;
    while j < tags.len()
        invariant
            j <= tags.len(),
            record == record_of(measurement@, tags@, fields@, millis),
            forall|i: int|
                0 <= i < tags@.len() ==> is_ascii_chars((#[trigger] tags@[i]).0@)
                    && is_ascii_chars(tags@[i].1@),
            is_ascii_chars(line@),
            bytes_of(line@) == head + pairs_prefix(record.tags, j as int),
        decreases tags.len() - j,
    {
        let ghost before = bytes_of(line@);
        let closing = closing_delimiter(j, tags.len());
        push_text(&mut line, tags[j].0.as_str());
        push_text(&mut line, delimiter_text(Delimiter::Equals));
        push_text(&mut line, tags[j].1.as_str());
        push_text(&mut line, delimiter_text(closing));
        proof {
            assert(record.tags[j as int] == tag_pair(tags@[j as int]));
            assert(bytes_of(line@) =~= head + pairs_prefix(record.tags, j + 1));
        }
        j = j + 1;
    }
    proof {
        lemma_pairs_prefix(record.tags, tags.len() as int);
    }
    let ghost tagged = head + pairs_text(record.tags);

    let mut k: usize = 0;
    while k < fields.len()
        invariant
            k <= fields.len(),
            record == record_of(measurement@, tags@, fields@, millis),
            written == marked(record.fields),
            forall|i: int| 0 <= i < fields@.len() ==> is_ascii_chars((#[trigger] fields@[i]).0@),
            is_ascii_chars(line@),
            bytes_of(line@) == tagged + pairs_prefix(written, k as int),
        decreases fields.len() - k,
    {
        let closing = closing_delimiter(k, fields.len());
        push_text(&mut line, fields[k].0.as_str());
        push_text(&mut line, delimiter_text(Delimiter::Equals));
        let value: u32 = fields[k].1;
        push_decimal(&mut line, value as u128);
        push_text(&mut line, marker_text());
        push_text(&mut line, delimiter_text(closing));
        proof {
            assert(record.fields[k as int] == field_pair(fields@[k as int]));
            assert(written[k as int].key == bytes_of(fields@[k as int].0@));
            assert(written[k as int].value == decimal_digits(value as nat).push(0x69u8));
            assert(bytes_of(line@) =~= tagged + pairs_prefix(written, k + 1));
        }
        k = k + 1;
    }
    proof {
        lemma_pairs_prefix(written, fields.len() as int);
    }
    push_decimal(&mut line, millis);
    push_text(&mut line, delimiter_text(Delimiter::Newline));
    assert(bytes_of(line@) =~= record_text(record));
    line
}

/// True of the byte of an ASCII letter or digit.
pub open spec fn is_alphanumeric_byte(byte: u8) -> bool {
    (0x41 <= byte <= 0x5a) || (0x61 <= byte <= 0x7a) || (0x30 <= byte <= 0x39)
}

/// True of a byte string of five ASCII letters and digits.
pub open spec fn is_random_name(bytes: Seq<u8>) -> bool {
    bytes.len() == 5 && forall|i: int| 0 <= i < 5 ==> is_alphanumeric_byte(#[trigger] bytes[i])
}

/// True of a record as `gen_line` writes them: the measurement `test`, five
/// tags of random names, five fields with random names as keys and the
/// numerals of 32-bit numbers as values, and the numeral of a number of
/// milliseconds as the timestamp.
pub open spec fn is_generated(record: Record) -> bool {
    &&& record.measurement == seq![0x74u8, 0x65u8, 0x73u8, 0x74u8]
    &&& record.tags.len() == 5
    &&& forall|i: int|
        0 <= i < 5 ==> is_random_name((#[trigger] record.tags[i]).key) && is_random_name(
            record.tags[i].value,
        )
    &&& record.fields.len() == 5
    &&& forall|i: int|
        0 <= i < 5 ==> is_random_name((#[trigger] record.fields[i]).key) && exists|value: u32|
            record.fields[i].value == decimal_digits(value as nat)
    &&& exists|millis: u128| record.timestamp == decimal_digits(millis as nat)
}

/// The bytes of a name are letters and digits, as many as it has characters.
proof fn lemma_name_bytes(chars: Seq<char>)
    requires
        is_name(chars),
    ensures
        is_ascii_chars(chars),
        bytes_of(chars).len() == chars.len(),
        forall|i: int| 0 <= i < chars.len() ==> is_alphanumeric_byte(#[trigger] bytes_of(chars)[i]),
{
    assert forall|i: int| 0 <= i < chars.len() implies is_alphanumeric_byte(
        #[trigger] bytes_of(chars)[i],
    ) && '\0' <= chars[i] <= '\u{7f}' by {
        assert(is_alphanumeric(chars[i]));
    }
}

/// A generated record is well-formed, and the tape of its text has twelve
/// tokens: the measurement, five tags, five fields and the timestamp.
pub proof fn lemma_generated_line_tokenizes(record: Record)
    requires
        is_generated(record),
    ensures
        well_formed(record),
        tape_of(record_text(record)) == Ok::<Seq<Token>, TapeError>(record_tokens(record)),
        record_tokens(record).len() == 12,
{
    assert forall|bytes: Seq<u8>| is_random_name(bytes) implies is_text(bytes) by {
        assert forall|i: int| 0 <= i < bytes.len() implies delimiter_of(#[trigger] bytes[i]) is None by {
            assert(is_alphanumeric_byte(bytes[i]));
        }
    }
    assert(is_text(record.measurement));
    assert forall|i: int| 0 <= i < record.fields.len() implies is_text(
        (#[trigger] record.fields[i]).key,
    ) && all_digits(record.fields[i].value) by {
        let value = choose|value: u32| record.fields[i].value == decimal_digits(value as nat);
        lemma_decimal_digits(value as nat);
    }
    let millis = choose|millis: u128| record.timestamp == decimal_digits(millis as nat);
    lemma_decimal_digits(millis as nat);
    lemma_record_tape(record);
}

/// Writes the line of a record named `test` from what was drawn and what the
/// clock gave: nothing where the clock gave no time since the epoch, else the
/// record with that time in milliseconds as its timestamp.
pub fn line_from_draws(
    tags: &Vec<(String, String)>,
    fields: &Vec<(String, u32)>,
    elapsed: Option<u128>,
) -> (line: Option<String>)
    requires
        forall|i: int|
            0 <= i < tags@.len() ==> is_ascii_chars((#[trigger] tags@[i]).0@) && is_ascii_chars(
                tags@[i].1@,
            ),
        forall|i: int| 0 <= i < fields@.len() ==> is_ascii_chars((#[trigger] fields@[i]).0@),
    ensures
        elapsed is None ==> line is None,
        elapsed matches Some(millis) ==> line matches Some(text) && is_ascii_chars(text@)
            && bytes_of(text@) == record_text(record_of("test"@, tags@, fields@, millis)),
{
    match elapsed {
        None => None,
        Some(millis) => {
            proof {
                reveal_strlit("test");
            }
            Some(assemble_line("test", tags, fields, millis))
        },
    }
}

/// Writes a record with random contents, as a line with its line feed: the
/// measurement `test`, five tags and five integer fields with random names of
/// five letters and digits, random 32-bit values, and the time of the system
/// clock in milliseconds since the Unix epoch as the timestamp. Returns
/// nothing when the clock reads a time before the epoch.
pub fn gen_line() -> (line: Option<String>)
    ensures
        line matches Some(text) ==> is_ascii_chars(text@) && exists|record: Record|
            is_generated(record) && bytes_of(text@) == record_text(record),
{
    let mut tags: Vec<(String, String)> = Vec::new();
    while tags.len() < 5
        invariant
            tags.len() <= 5,
            forall|i: int|
                0 <= i < tags@.len() ==> is_name((#[trigger] tags@[i]).0@) && tags@[i].0@.len() == 5
                    && is_name(tags@[i].1@) && tags@[i].1@.len() == 5,
        decreases 5 - tags.len(),
    {
        let key = random_alphanumeric(5);
        let value = random_alphanumeric(5);
        tags.push((key, value));
    }
    let mut fields: Vec<(String, u32)> = Vec::new();
    while fields.len() < 5
        invariant
            fields.len() <= 5,
            forall|i: int|
                0 <= i < fields@.len() ==> is_name((#[trigger] fields@[i]).0@) && fields@[i].0@.len()
                    == 5,
        decreases 5 - fields.len(),
    {
        let key = random_alphanumeric(5);
        let value = random_u32();
        fields.push((key, value));
    }
    let now = clock_now();
    let elapsed: Option<u128> = match since_epoch(&now) {
        None => None,
        Some(duration) => Some(whole_millis(&duration)),
    };
    proof {
        assert forall|i: int| 0 <= i < tags@.len() implies is_ascii_chars((#[trigger] tags@[i]).0@)
            && is_ascii_chars(tags@[i].1@) by {
            lemma_name_bytes(tags@[i].0@);
            lemma_name_bytes(tags@[i].1@);
        }
        assert forall|i: int| 0 <= i < fields@.len() implies is_ascii_chars(
            (#[trigger] fields@[i]).0@,
        ) by {
            lemma_name_bytes(fields@[i].0@);
        }
    }
    let line = line_from_draws(&tags, &fields, elapsed);
    proof {
        if let Some(millis) = elapsed {
            reveal_strlit("test");
            let record = record_of("test"@, tags@, fields@, millis);
            assert(record.measurement =~= seq![0x74u8, 0x65u8, 0x73u8, 0x74u8]);
            assert forall|i: int| 0 <= i < 5 implies is_random_name((#[trigger] record.tags[i]).key)
                && is_random_name(record.tags[i].value) by {
                lemma_name_bytes(tags@[i].0@);
                lemma_name_bytes(tags@[i].1@);
            }
            assert forall|i: int| 0 <= i < 5 implies is_random_name(
                (#[trigger] record.fields[i]).key,
            ) && exists|value: u32|
                record.fields[i].value == decimal_digits(value as nat) by {
                lemma_name_bytes(fields@[i].0@);
                assert(record.fields[i].value == decimal_digits(fields@[i].1 as nat));
            }
            assert(record.timestamp == decimal_digits(millis as nat));
            assert(is_generated(record));
        }
    }
    line
}

} // verus!
