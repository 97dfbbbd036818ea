//! Well-formed records and what the tape builder makes of them.

use crate::integer::{all_digits, digits_value, int_text_value, is_digit};
use crate::tape::{
    advance, delimiter_of, lemma_scan_prefix, lemma_scan_skip, scan, tape_of, valid_field_text,
    valid_timestamp_text, Delimiter, TapeState,
};
use crate::token::{Phase, TapeError, Token};
use vstd::prelude::*;

verus! {

/// The byte that stands for a delimiter.
pub open spec fn byte_of(delimiter: Delimiter) -> u8 {
    match delimiter {
        Delimiter::Space => 0x20,
        Delimiter::Comma => 0x2c,
        Delimiter::Equals => 0x3d,
        Delimiter::Newline => 0x0a,
    }
}

/// True of a byte string that holds none of the four delimiters.
pub open spec fn is_text(bytes: Seq<u8>) -> bool {
    forall|i: int| 0 <= i < bytes.len() ==> delimiter_of(#[trigger] bytes[i]) is None
}

/// A key with its value, both as byte strings.
pub struct Pair {
    pub key: Seq<u8>,
    pub value: Seq<u8>,
}

/// The parts of one record. The value of a field is its digits, without the
/// suffix marker.
pub struct Record {
    pub measurement: Seq<u8>,
    pub tags: Seq<Pair>,
    pub fields: Seq<Pair>,
    pub timestamp: Seq<u8>,
}

/// True when every key and value of the pairs is free of delimiters.
pub open spec fn pairs_are_text(pairs: Seq<Pair>) -> bool {
    forall|i: int|
        0 <= i < pairs.len() ==> is_text((#[trigger] pairs[i]).key) && is_text(pairs[i].value)
}

/// True when every field has a key free of delimiters and a value of digits.
pub open spec fn fields_are_integers(fields: Seq<Pair>) -> bool {
    forall|i: int|
        0 <= i < fields.len() ==> is_text((#[trigger] fields[i]).key) && all_digits(fields[i].value)
}

/// A record that the grammar admits: names, keys and tag values without
/// delimiters, one field or more, field values of digits, and a timestamp of
/// one digit or more.
pub open spec fn well_formed(record: Record) -> bool {
    &&& is_text(record.measurement)
    &&& pairs_are_text(record.tags)
    &&& record.fields.len() >= 1
    &&& fields_are_integers(record.fields)
    &&& valid_timestamp_text(record.timestamp)
}

/// A list of pairs as it stands in a record: `key=value` for each, a comma
/// between two pairs and a space behind the last.
pub open spec fn pairs_text(pairs: Seq<Pair>) -> Seq<u8>
    decreases pairs.len(),
{
    if pairs.len() == 0 {
        Seq::empty()
    } else {
        pairs[0].key + seq![0x3du8] + pairs[0].value + seq![
            if pairs.len() == 1 {
                0x20u8
            } else {
                0x2cu8
            },
        ] + pairs_text(pairs.drop_first())
    }
}

/// The fields with the suffix marker behind each value, as they are written.
pub open spec fn marked(fields: Seq<Pair>) -> Seq<Pair> {
    fields.map_values(|field: Pair| Pair { key: field.key, value: field.value.push(0x69u8) })
}

/// The text of a record: the measurement; a comma and the tags, if there are
/// any, else a space; the fields; the timestamp; a line feed.
pub open spec fn record_text(record: Record) -> Seq<u8> {
    record.measurement + seq![
        if record.tags.len() == 0 {
            0x20u8
        } else {
            0x2cu8
        },
    ] + pairs_text(record.tags) + pairs_text(marked(record.fields)) + record.timestamp + seq![
        0x0au8,
    ]
}

/// The tokens of a list of tags.
pub open spec fn tag_tokens(tags: Seq<Pair>) -> Seq<Token> {
    tags.map_values(|tag: Pair| Token::Tag { key: tag.key, value: tag.value })
}

/// The tokens of a list of fields.
pub open spec fn field_tokens(fields: Seq<Pair>) -> Seq<Token> {
    fields.map_values(|field: Pair| Token::Field { key: field.key, value: digits_value(field.value) })
}

/// The tokens of a record: the measurement, the tags, the fields and the
/// timestamp, in that order.
pub open spec fn record_tokens(record: Record) -> Seq<Token> {
    seq![Token::Measurement(record.measurement)] + tag_tokens(record.tags) + field_tokens(
        record.fields,
    ) + seq![Token::Timestamp(digits_value(record.timestamp))]
}

/// A text without delimiters that stands in the buffer where the builder
/// begins, with a delimiter behind it, takes the builder one step forward.
pub proof fn lemma_scan_item(bytes: Seq<u8>, at: int, item: Seq<u8>, delimiter: Delimiter)
    requires
        0 <= at,
        at + item.len() < bytes.len(),
        bytes.subrange(at, at + item.len()) == item,
        is_text(item),
        bytes[at + item.len()] == byte_of(delimiter),
        scan(bytes, at) is Ok,
        scan(bytes, at)->Ok_0.start == at,
    ensures
        scan(bytes, at + item.len() + 1) == advance(
            scan(bytes, at)->Ok_0,
            item,
            at + item.len(),
            delimiter,
        ),
{
    let end = at + item.len();
    assert forall|i: int| at <= i < end implies delimiter_of(#[trigger] bytes[i]) is None by {
        assert(bytes[i] == item[i - at]);
    }
    lemma_scan_skip(bytes, at, end);
}

/// The places of the parts of a block `key=value`, a delimiter and a rest.
proof fn lemma_block_parts(block: Seq<u8>, key: Seq<u8>, value: Seq<u8>, byte: u8, rest: Seq<u8>)
    requires
        block == key + seq![0x3du8] + value + seq![byte] + rest,
    ensures
        block.len() == key.len() + value.len() + 2 + rest.len(),
        block.subrange(0, key.len() as int) == key,
        block[key.len() as int] == 0x3d,
        block.subrange(key.len() + 1 as int, (key.len() + 1 + value.len()) as int) == value,
        block[(key.len() + 1 + value.len()) as int] == byte,
        block.subrange((key.len() + 2 + value.len()) as int, block.len() as int) == rest,
{
    assert(block.subrange(0, key.len() as int) =~= key);
    assert(block.subrange(key.len() + 1 as int, (key.len() + 1 + value.len()) as int) =~= value);
    assert(block.subrange((key.len() + 2 + value.len()) as int, block.len() as int) =~= rest);
}

/// A part of a stretch of the buffer stands in the buffer itself.
proof fn lemma_part_of_stretch(bytes: Seq<u8>, at: int, block: Seq<u8>, from: int, to: int)
    requires
        0 <= at,
        at + block.len() <= bytes.len(),
        bytes.subrange(at, at + block.len()) == block,
        0 <= from <= to <= block.len(),
    ensures
        bytes.subrange(at + from, at + to) == block.subrange(from, to),
        from < block.len() ==> bytes[at + from] == block[from],
{
    assert(bytes.subrange(at + from, at + to) =~= block.subrange(from, to)) by {
        assert forall|i: int| 0 <= i < to - from implies bytes.subrange(at + from, at + to)[i]
            == block.subrange(from, to)[i] by {
            assert(bytes.subrange(at, at + block.len())[from + i] == bytes[at + from + i]);
        }
    }
    if from < block.len() {
        assert(bytes.subrange(at, at + block.len())[from] == bytes[at + from]);
    }
}

/// The tags of a record, read from the place where the first key begins,
/// become one token each and lead the builder into the fields.
pub proof fn lemma_scan_tags(bytes: Seq<u8>, at: int, tags: Seq<Pair>)
    requires
        0 <= at,
        at + pairs_text(tags).len() <= bytes.len(),
        bytes.subrange(at, at + pairs_text(tags).len()) == pairs_text(tags),
        pairs_are_text(tags),
        tags.len() > 0,
        scan(bytes, at) is Ok,
        scan(bytes, at)->Ok_0.start == at,
        scan(bytes, at)->Ok_0.phase == Phase::TagSet,
        !scan(bytes, at)->Ok_0.pending,
    ensures
        scan(bytes, at + pairs_text(tags).len()) == Ok::<TapeState, TapeError>(
            TapeState {
                phase: Phase::FieldSet,
                pending: false,
                start: at + pairs_text(tags).len(),
                tokens: scan(bytes, at)->Ok_0.tokens + tag_tokens(tags),
            },
        ),
    decreases tags.len(),
{
    let before = scan(bytes, at)->Ok_0;
    let block = pairs_text(tags);
    let key = tags[0].key;
    let value = tags[0].value;
    let rest = tags.drop_first();
    let closing = if tags.len() == 1 {
        Delimiter::Space
    } else {
        Delimiter::Comma
    };
    lemma_block_parts(block, key, value, byte_of(closing), pairs_text(rest));
    let eq_at = at + key.len();
    let close_at = eq_at + 1 + value.len();
    lemma_part_of_stretch(bytes, at, block, 0, key.len() as int);
    lemma_part_of_stretch(bytes, at, block, key.len() as int, key.len() as int);
    lemma_scan_item(bytes, at, key, Delimiter::Equals);
    let opened = scan(bytes, eq_at + 1)->Ok_0;
    lemma_part_of_stretch(bytes, at, block, key.len() + 1 as int, (key.len() + 1 + value.len()) as int);
    lemma_part_of_stretch(
        bytes,
        at,
        block,
        (key.len() + 1 + value.len()) as int,
        (key.len() + 1 + value.len()) as int,
    );
    lemma_scan_item(bytes, eq_at + 1, value, closing);
    let closed = scan(bytes, close_at + 1)->Ok_0;
    let token = Token::Tag { key, value };
    assert(closed.tokens =~= before.tokens.push(token)) by {
        let open_tokens = before.tokens.push(Token::Tag { key, value: Seq::empty() });
        assert(opened.tokens == open_tokens);
        assert(open_tokens.drop_last() =~= before.tokens);
    }
    assert(tag_tokens(tags) =~= seq![token] + tag_tokens(rest));
    if tags.len() == 1 {
        assert(pairs_text(rest) =~= Seq::<u8>::empty());
        assert(tag_tokens(rest) =~= Seq::<Token>::empty());
        assert(before.tokens + tag_tokens(tags) =~= before.tokens.push(token));
    } else {
        lemma_part_of_stretch(
            bytes,
            at,
            block,
            (key.len() + 2 + value.len()) as int,
            block.len() as int,
        );
        assert(pairs_are_text(rest)) by {
            assert forall|i: int| 0 <= i < rest.len() implies is_text((#[trigger] rest[i]).key)
                && is_text(rest[i].value) by {
                assert(rest[i] == tags[i + 1]);
            }
        }
        lemma_scan_tags(bytes, close_at + 1, rest);
        assert(before.tokens + tag_tokens(tags) =~= closed.tokens + tag_tokens(rest));
    }
}

/// Digits are no delimiters, and neither is the suffix marker behind them.
pub proof fn lemma_integer_text(digits: Seq<u8>)
    requires
        all_digits(digits),
    ensures
        is_text(digits),
        is_text(digits.push(0x69u8)),
        valid_field_text(digits.push(0x69u8)),
        int_text_value(digits.push(0x69u8)) == digits_value(digits),
{
    let text = digits.push(0x69u8);
    assert(text.drop_last() =~= digits);
    assert forall|i: int| 0 <= i < digits.len() implies delimiter_of(#[trigger] digits[i]) is None by {
        assert(is_digit(digits[i]));
    }
    assert forall|i: int| 0 <= i < text.len() implies delimiter_of(#[trigger] text[i]) is None by {
        if i < digits.len() {
            assert(text[i] == digits[i]);
        }
    }
}

/// The fields of a record, read from the place where the first key begins,
/// become one token each, with the digits as the value, and lead the builder
/// to the timestamp.
pub proof fn lemma_scan_fields(bytes: Seq<u8>, at: int, fields: Seq<Pair>)
    requires
        0 <= at,
        at + pairs_text(marked(fields)).len() <= bytes.len(),
        bytes.subrange(at, at + pairs_text(marked(fields)).len()) == pairs_text(marked(fields)),
        fields_are_integers(fields),
        fields.len() > 0,
        scan(bytes, at) is Ok,
        scan(bytes, at)->Ok_0.start == at,
        scan(bytes, at)->Ok_0.phase == Phase::FieldSet,
        !scan(bytes, at)->Ok_0.pending,
    ensures
        scan(bytes, at + pairs_text(marked(fields)).len()) == Ok::<TapeState, TapeError>(
            TapeState {
                phase: Phase::Timestamp,
                pending: false,
                start: at + pairs_text(marked(fields)).len(),
                tokens: scan(bytes, at)->Ok_0.tokens + field_tokens(fields),
            },
        ),
    decreases fields.len(),
{
    let before = scan(bytes, at)->Ok_0;
    let written = marked(fields);
    let block = pairs_text(written);
    let key = fields[0].key;
    let digits = fields[0].value;
    let value = digits.push(0x69u8);
    let rest = fields.drop_first();
    let closing = if fields.len() == 1 {
        Delimiter::Space
    } else {
        Delimiter::Comma
    };
    assert(written[0] == Pair { key, value });
    assert(written.drop_first() =~= marked(rest));
    lemma_integer_text(digits);
    lemma_block_parts(block, key, value, byte_of(closing), pairs_text(marked(rest)));
    let eq_at = at + key.len();
    let close_at = eq_at + 1 + value.len();
    lemma_part_of_stretch(bytes, at, block, 0, key.len() as int);
    lemma_part_of_stretch(bytes, at, block, key.len() as int, key.len() as int);
    lemma_scan_item(bytes, at, key, Delimiter::Equals);
    let opened = scan(bytes, eq_at + 1)->Ok_0;
    lemma_part_of_stretch(bytes, at, block, key.len() + 1 as int, (key.len() + 1 + value.len()) as int);
    lemma_part_of_stretch(
        bytes,
        at,
        block,
        (key.len() + 1 + value.len()) as int,
        (key.len() + 1 + value.len()) as int,
    );
    lemma_scan_item(bytes, eq_at + 1, value, closing);
    let closed = scan(bytes, close_at + 1)->Ok_0;
    let token = Token::Field { key, value: digits_value(digits) };
    assert(closed.tokens =~= before.tokens.push(token)) by {
        let open_tokens = before.tokens.push(Token::Field { key, value: 0 });
        assert(opened.tokens == open_tokens);
        assert(open_tokens.drop_last() =~= before.tokens);
    }
    assert(field_tokens(fields) =~= seq![token] + field_tokens(rest));
    if fields.len() == 1 {
        assert(pairs_text(marked(rest)) =~= Seq::<u8>::empty());
        assert(field_tokens(rest) =~= Seq::<Token>::empty());
        assert(before.tokens + field_tokens(fields) =~= before.tokens.push(token));
    } else {
        lemma_part_of_stretch(
            bytes,
            at,
            block,
            (key.len() + 2 + value.len()) as int,
            block.len() as int,
        );
        assert(fields_are_integers(rest)) by {
            assert forall|i: int| 0 <= i < rest.len() implies is_text((#[trigger] rest[i]).key)
                && all_digits(rest[i].value) by {
                assert(rest[i] == fields[i + 1]);
            }
        }
        lemma_scan_fields(bytes, close_at + 1, rest);
        assert(before.tokens + field_tokens(fields) =~= closed.tokens + field_tokens(rest));
    }
}

/// The tokens of a record without the timestamp.
pub open spec fn record_body_tokens(record: Record) -> Seq<Token> {
    seq![Token::Measurement(record.measurement)] + tag_tokens(record.tags) + field_tokens(
        record.fields,
    )
}

/// A well-formed record that stands in the buffer where the builder begins a
/// record adds its tokens to the tape and leaves the builder at the beginning
/// of the next record. Before the line feed the builder stands in the
/// timestamp, with everything but the timestamp on the tape.
pub proof fn lemma_scan_record(bytes: Seq<u8>, at: int, record: Record)
    requires
        0 <= at,
        at + record_text(record).len() <= bytes.len(),
        bytes.subrange(at, at + record_text(record).len()) == record_text(record),
        well_formed(record),
        scan(bytes, at) is Ok,
        scan(bytes, at)->Ok_0.start == at,
        scan(bytes, at)->Ok_0.phase == Phase::Measurement,
        !scan(bytes, at)->Ok_0.pending,
    ensures
        scan(bytes, at + record_text(record).len() - 1) == Ok::<TapeState, TapeError>(
            TapeState {
                phase: Phase::Timestamp,
                pending: false,
                start: at + record_text(record).len() - 1 - record.timestamp.len(),
                tokens: scan(bytes, at)->Ok_0.tokens + record_body_tokens(record),
            },
        ),
        scan(bytes, at + record_text(record).len()) == Ok::<TapeState, TapeError>(
            TapeState {
                phase: Phase::Measurement,
                pending: false,
                start: at + record_text(record).len(),
                tokens: scan(bytes, at)->Ok_0.tokens + record_tokens(record),
            },
        ),
{
    let before = scan(bytes, at)->Ok_0;
    let text = record_text(record);
    let name = record.measurement;
    let tags_block = pairs_text(record.tags);
    let fields_block = pairs_text(marked(record.fields));
    let stamp = record.timestamp;
    let opening = if record.tags.len() == 0 {
        Delimiter::Space
    } else {
        Delimiter::Comma
    };
    let tags_at = name.len() + 1 as int;
    let fields_at = tags_at + tags_block.len();
    let stamp_at = fields_at + fields_block.len();
    let end = stamp_at + stamp.len();
    assert(text.len() == end + 1);
    assert(text.subrange(0, name.len() as int) =~= name);
    assert(text[name.len() as int] == byte_of(opening));
    assert(text.subrange(tags_at, fields_at) =~= tags_block);
    assert(text.subrange(fields_at, stamp_at) =~= fields_block);
    assert(text.subrange(stamp_at, end) =~= stamp);
    assert(text[end] == 0x0a);
    lemma_part_of_stretch(bytes, at, text, 0, name.len() as int);
    lemma_part_of_stretch(bytes, at, text, name.len() as int, name.len() as int);
    lemma_part_of_stretch(bytes, at, text, tags_at, fields_at);
    lemma_part_of_stretch(bytes, at, text, fields_at, stamp_at);
    lemma_part_of_stretch(bytes, at, text, stamp_at, end);
    lemma_part_of_stretch(bytes, at, text, end, end);

    lemma_scan_item(bytes, at, name, opening);
    let named = before.tokens.push(Token::Measurement(name));
    if record.tags.len() > 0 {
        lemma_scan_tags(bytes, at + tags_at, record.tags);
    } else {
        assert(tags_block =~= Seq::<u8>::empty());
        assert(tag_tokens(record.tags) =~= Seq::<Token>::empty());
        assert(named + tag_tokens(record.tags) =~= named);
    }
    lemma_scan_fields(bytes, at + fields_at, record.fields);
    let body = named + tag_tokens(record.tags) + field_tokens(record.fields);
    assert(body =~= before.tokens + record_body_tokens(record));
    assert(scan(bytes, at + stamp_at)->Ok_0.tokens == body);

    lemma_integer_text(stamp);
    assert forall|i: int| at + stamp_at <= i < at + end implies delimiter_of(#[trigger] bytes[i]) is None by {
        assert(bytes[i] == stamp[i - at - stamp_at]);
    }
    lemma_scan_skip(bytes, at + stamp_at, at + end);
    lemma_scan_item(bytes, at + stamp_at, stamp, Delimiter::Newline);
    assert(body.push(Token::Timestamp(digits_value(stamp))) =~= before.tokens + record_tokens(
        record,
    ));
}

/// True when every record of the list is well-formed.
pub open spec fn all_well_formed(records: Seq<Record>) -> bool {
    forall|i: int| 0 <= i < records.len() ==> well_formed(#[trigger] records[i])
}

/// The text of a list of records: their texts one after the other, each with
/// its line feed.
pub open spec fn batch_text(records: Seq<Record>) -> Seq<u8>
    decreases records.len(),
{
    if records.len() == 0 {
        Seq::empty()
    } else {
        batch_text(records.drop_last()) + record_text(records.last())
    }
}

/// The tokens of a list of records: their tokens one after the other.
pub open spec fn batch_tokens(records: Seq<Record>) -> Seq<Token>
    decreases records.len(),
{
    if records.len() == 0 {
        Seq::empty()
    } else {
        batch_tokens(records.drop_last()) + record_tokens(records.last())
    }
}

/// After a list of well-formed records the builder stands at the beginning of
/// a record with the tokens of them all on the tape; before the last line
/// feed it stands in the timestamp of the last record.
pub proof fn lemma_scan_batch(records: Seq<Record>)
    requires
        all_well_formed(records),
    ensures
        scan(batch_text(records), batch_text(records).len() as int) == Ok::<TapeState, TapeError>(
            TapeState {
                phase: Phase::Measurement,
                pending: false,
                start: batch_text(records).len() as int,
                tokens: batch_tokens(records),
            },
        ),
        records.len() > 0 ==> scan(batch_text(records), batch_text(records).len() - 1) == Ok::<
            TapeState,
            TapeError,
        >(
            TapeState {
                phase: Phase::Timestamp,
                pending: false,
                start: batch_text(records).len() - 1 - records.last().timestamp.len(),
                tokens: batch_tokens(records.drop_last()) + record_body_tokens(records.last()),
            },
        ),
    decreases records.len(),
{
    if records.len() > 0 {
        let earlier = records.drop_last();
        let head = batch_text(earlier);
        let whole = batch_text(records);
        let at = head.len() as int;
        assert(all_well_formed(earlier)) by {
            assert forall|i: int| 0 <= i < earlier.len() implies well_formed(#[trigger] earlier[i]) by {
                assert(earlier[i] == records[i]);
            }
        }
        lemma_scan_batch(earlier);
        assert(whole.subrange(0, at) =~= head);
        assert(head.subrange(0, at) =~= head);
        lemma_scan_prefix(whole, head, at);
        assert(whole.subrange(at, at + record_text(records.last()).len()) =~= record_text(
            records.last(),
        ));
        lemma_scan_record(whole, at, records.last());
    }
}

/// Round trip of a batch: the tape of the text of well-formed records is the
/// list of their tokens, record by record, whether the last line feed is
/// there or not. After each line feed the builder begins anew, so that a
/// record is tokenized as it would be alone.
pub proof fn lemma_batch_tape(records: Seq<Record>)
    requires
        all_well_formed(records),
    ensures
        tape_of(batch_text(records)) == Ok::<Seq<Token>, TapeError>(batch_tokens(records)),
        records.len() > 0 ==> tape_of(batch_text(records).drop_last()) == Ok::<
            Seq<Token>,
            TapeError,
        >(batch_tokens(records)),
{
    lemma_scan_batch(records);
    if records.len() > 0 {
        let last = records.last();
        let head = batch_text(records.drop_last());
        let text = record_text(last);
        let whole = batch_text(records);
        let cut = whole.drop_last();
        let stamp = last.timestamp;
        let n = cut.len() as int;
        assert(well_formed(last));
        assert(whole == head + text);
        assert(text.len() >= stamp.len() + 1);
        assert(whole.subrange(0, n) =~= cut.subrange(0, n));
        lemma_scan_prefix(whole, cut, n);
        let state = scan(cut, n)->Ok_0;
        assert(state.start == n - stamp.len());
        assert(cut.subrange(n - stamp.len(), n) =~= stamp) by {
            assert forall|i: int| 0 <= i < stamp.len() implies cut.subrange(n - stamp.len(), n)[i]
                == stamp[i] by {
                let j = n - stamp.len() + i;
                assert(cut[j] == whole[j]);
                assert(whole[j] == text[j - head.len()]);
                assert(text[j - head.len()] == stamp[i]);
            }
        }
        assert(state.tokens.push(Token::Timestamp(digits_value(stamp))) =~= batch_tokens(records));
    }
}

/// Round trip of one record: a well-formed record with `T` tags and `F`
/// fields gives a tape of `1 + T + F + 1` tokens, which are the measurement,
/// the tags, the fields and the timestamp in that order, whether its line
/// feed is there or not.
pub proof fn lemma_record_tape(record: Record)
    requires
        well_formed(record),
    ensures
        tape_of(record_text(record)) == Ok::<Seq<Token>, TapeError>(record_tokens(record)),
        tape_of(record_text(record).drop_last()) == Ok::<Seq<Token>, TapeError>(
            record_tokens(record),
        ),
        record_tokens(record).len() == 1 + record.tags.len() + record.fields.len() + 1,
        record_tokens(record)[0] == Token::Measurement(record.measurement),
        forall|i: int|
            0 <= i < record.tags.len() ==> #[trigger] record_tokens(record)[1 + i] == (Token::Tag {
                key: record.tags[i].key,
                value: record.tags[i].value,
            }),
        forall|i: int|
            0 <= i < record.fields.len() ==> #[trigger] record_tokens(record)[1 + record.tags.len()
                + i] == (Token::Field {
                key: record.fields[i].key,
                value: digits_value(record.fields[i].value),
            }),
        record_tokens(record).last() == Token::Timestamp(digits_value(record.timestamp)),
{
    let records = seq![record];
    assert(records.last() == record);
    assert(records.drop_last() =~= Seq::<Record>::empty());
    assert(batch_text(records.drop_last()) =~= Seq::<u8>::empty());
    assert(batch_tokens(records.drop_last()) =~= Seq::<Token>::empty());
    assert(batch_text(records) =~= record_text(record));
    assert(batch_tokens(records) =~= record_tokens(record));
    lemma_batch_tape(records);
}

} // verus!
