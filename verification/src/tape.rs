//! The tape builder: a state machine that walks the delimiters of a buffer
//! once and turns the text between them into tokens.

use crate::classifier::{
    class_of, is_offset_list, is_wanted, shuffle_lookup, shuffle_lookup_avx2, STRUCTURAL,
};
use crate::integer::{all_digits, digits_value, int_text_value, is_digit_run, parse_digits};
use crate::token::{tokens_of, Node, Phase, TapeError, Token};
use vstd::prelude::*;
use vstd::string::{is_ascii, is_ascii_spec_bytes, StrSliceExecFns, StringSliceAdditionalSpecFns};

verus! {

/// The delimiters at which the builder acts.
#[derive(Debug, Clone, Copy, PartialEq, Eq)]
pub enum Delimiter {
    Space,
    Comma,
    Equals,
    Newline,
}

/// What the builder does at a delimiter with the text that ends there.
#[derive(Debug, Clone, Copy, PartialEq, Eq)]
pub enum Action {
    /// Append the measurement token with the text as its name.
    PushMeasurement,
    /// Append a tag token with the text as its key and an empty value.
    PushTag,
    /// Write the text into the value of the tag appended last.
    FillTag,
    /// Append a field token with the text as its key and the value zero.
    PushField,
    /// Parse the text and write it into the value of the field appended last.
    FillField,
    /// Parse the text and append it as the timestamp.
    PushTimestamp,
}

/// One entry of the transition table.
#[derive(Debug, Clone, Copy, PartialEq, Eq)]
pub struct Transition {
    pub action: Action,
    pub next: Phase,
}

/// The delimiter that a byte stands for, if any. The suffix marker is none:
/// it belongs to the text of a field value.
pub open spec fn delimiter_of(byte: u8) -> Option<Delimiter> {
    if byte == 0x20 {
        Some(Delimiter::Space)
    } else if byte == 0x2c {
        Some(Delimiter::Comma)
    } else if byte == 0x3d {
        Some(Delimiter::Equals)
    } else if byte == 0x0a {
        Some(Delimiter::Newline)
    } else {
        None
    }
}

/// The transition table. `pending` says that the token appended last is a tag
/// or field whose value has not been written yet. A combination without an
/// entry is a malformed record.
pub open spec fn transition_of(phase: Phase, pending: bool, delimiter: Delimiter) -> Option<
    Transition,
> {
    match (phase, delimiter) {
        (Phase::Measurement, Delimiter::Space) => Some(
            Transition { action: Action::PushMeasurement, next: Phase::FieldSet },
        ),
        (Phase::Measurement, Delimiter::Comma) => Some(
            Transition { action: Action::PushMeasurement, next: Phase::TagSet },
        ),
        (Phase::Measurement, Delimiter::Equals) => Some(
            Transition { action: Action::PushMeasurement, next: Phase::TagSet },
        ),
        (Phase::TagSet, Delimiter::Equals) => if pending {
            None
        } else {
            Some(Transition { action: Action::PushTag, next: Phase::TagSet })
        },
        (Phase::TagSet, Delimiter::Comma) => if pending {
            Some(Transition { action: Action::FillTag, next: Phase::TagSet })
        } else {
            None
        },
        (Phase::TagSet, Delimiter::Space) => if pending {
            Some(Transition { action: Action::FillTag, next: Phase::FieldSet })
        } else {
            None
        },
        (Phase::FieldSet, Delimiter::Equals) => if pending {
            None
        } else {
            Some(Transition { action: Action::PushField, next: Phase::FieldSet })
        },
        (Phase::FieldSet, Delimiter::Comma) => if pending {
            Some(Transition { action: Action::FillField, next: Phase::FieldSet })
        } else {
            None
        },
        (Phase::FieldSet, Delimiter::Space) => if pending {
            Some(Transition { action: Action::FillField, next: Phase::Timestamp })
        } else {
            None
        },
        (Phase::Timestamp, Delimiter::Newline) => Some(
            Transition { action: Action::PushTimestamp, next: Phase::Measurement },
        ),
        _ => None,
    }
}

/// The text of a field value: decimal digits, none or more, and the suffix
/// marker `i` behind them.
pub open spec fn valid_field_text(text: Seq<u8>) -> bool {
    text.len() >= 1 && text.last() == 0x69 && all_digits(text.drop_last())
}

/// The text of a timestamp: one decimal digit or more and nothing else.
pub open spec fn valid_timestamp_text(text: Seq<u8>) -> bool {
    text.len() >= 1 && all_digits(text)
}

/// The builder between two delimiters.
pub struct TapeState {
    /// The part of the record that is being read.
    pub phase: Phase,
    /// Whether the last token still waits for its value.
    pub pending: bool,
    /// Where the text that the next delimiter ends begins.
    pub start: int,
    /// The tokens so far.
    pub tokens: Seq<Token>,
}

/// The builder before the first byte.
pub open spec fn initial_state() -> TapeState {
    TapeState { phase: Phase::Measurement, pending: false, start: 0, tokens: Seq::empty() }
}

/// The error for a record found malformed at `position` while the builder
/// was reading `phase`.
pub open spec fn malformed(position: int, phase: Phase) -> TapeError {
    TapeError::MalformedRecord { position: position as usize, expected_phase: phase }
}

/// The tokens after the value of the last one, a tag, has been written.
pub open spec fn with_tag_value(tokens: Seq<Token>, value: Seq<u8>) -> Seq<Token> {
    match tokens.last() {
        Token::Tag { key, value: _ } => tokens.drop_last().push(Token::Tag { key, value }),
        _ => tokens,
    }
}

/// The tokens after the value of the last one, a field, has been written.
pub open spec fn with_field_value(tokens: Seq<Token>, value: u64) -> Seq<Token> {
    match tokens.last() {
        Token::Field { key, value: _ } => tokens.drop_last().push(Token::Field { key, value }),
        _ => tokens,
    }
}

/// The tokens after an action has been carried out with the text `item`, or
/// nothing where the text is not what the action needs.
pub open spec fn perform(tokens: Seq<Token>, action: Action, item: Seq<u8>) -> Option<Seq<Token>> {
    match action {
        Action::PushMeasurement => Some(tokens.push(Token::Measurement(item))),
        Action::PushTag => Some(tokens.push(Token::Tag { key: item, value: Seq::empty() })),
        Action::FillTag => Some(with_tag_value(tokens, item)),
        Action::PushField => Some(tokens.push(Token::Field { key: item, value: 0 })),
        Action::FillField => if valid_field_text(item) {
            Some(with_field_value(tokens, int_text_value(item)))
        } else {
            None
        },
        Action::PushTimestamp => if valid_timestamp_text(item) {
            Some(tokens.push(Token::Timestamp(digits_value(item))))
        } else {
            None
        },
    }
}

/// Whether an action leaves a token behind that waits for its value.
pub open spec fn leaves_pending(action: Action) -> bool {
    action == Action::PushTag || action == Action::PushField
}

/// The builder after a delimiter at `position` that ends the text `item`.
pub open spec fn advance(state: TapeState, item: Seq<u8>, position: int, delimiter: Delimiter) -> Result<
    TapeState,
    TapeError,
> {
    match transition_of(state.phase, state.pending, delimiter) {
        None => Err(malformed(position, state.phase)),
        Some(transition) => match perform(state.tokens, transition.action, item) {
            None => Err(malformed(position, state.phase)),
            Some(tokens) => Ok(
                TapeState {
                    phase: transition.next,
                    pending: leaves_pending(transition.action),
                    start: position + 1,
                    tokens,
                },
            ),
        },
    }
}

/// The builder after the delimiter at `position` of the buffer: the text
/// that the delimiter ends is what lies between it and the one before.
pub open spec fn step(state: TapeState, bytes: Seq<u8>, position: int, delimiter: Delimiter) -> Result<
    TapeState,
    TapeError,
> {
    advance(state, bytes.subrange(state.start, position), position, delimiter)
}

/// The builder after the first `n` bytes of the buffer, or the error of the
/// first delimiter among them at which the record was found malformed.
pub open spec fn scan(bytes: Seq<u8>, n: int) -> Result<TapeState, TapeError>
    decreases n,
{
    if n <= 0 {
        Ok(initial_state())
    } else {
        match scan(bytes, n - 1) {
            Err(error) => Err(error),
            Ok(state) => match delimiter_of(bytes[n - 1]) {
                None => Ok(state),
                Some(delimiter) => step(state, bytes, n - 1, delimiter),
            },
        }
    }
}

/// What the end of the buffer makes of the builder: in the timestamp phase
/// the rest of the buffer is the last record's timestamp; a token that still
/// waits for its value is an error; anything else that was begun is dropped.
pub open spec fn finish(state: TapeState, bytes: Seq<u8>) -> Result<Seq<Token>, TapeError> {
    let rest = bytes.subrange(state.start, bytes.len() as int);
    if state.phase == Phase::Timestamp {
        match perform(state.tokens, Action::PushTimestamp, rest) {
            None => Err(malformed(bytes.len() as int, state.phase)),
            Some(tokens) => Ok(tokens),
        }
    } else if state.pending {
        Err(malformed(bytes.len() as int, state.phase))
    } else {
        Ok(state.tokens)
    }
}

/// The tape of a buffer of ASCII bytes.
pub open spec fn tape_of(bytes: Seq<u8>) -> Result<Seq<Token>, TapeError> {
    match scan(bytes, bytes.len() as int) {
        Err(error) => Err(error),
        Ok(state) => finish(state, bytes),
    }
}

/// The result that tokenizing a text must give.
pub open spec fn tokenized(line: &str) -> Result<Seq<Token>, TapeError> {
    if is_ascii(line) {
        tape_of(line.spec_bytes())
    } else {
        Err(TapeError::NotAscii)
    }
}

/// A result of the builder with its nodes taken as tokens.
pub open spec fn tape_view(result: Result<Vec<Node>, TapeError>) -> Result<Seq<Token>, TapeError> {
    match result {
        Ok(nodes) => Ok(tokens_of(nodes@)),
        Err(error) => Err(error),
    }
}

/// The bytes at which the builder acts are the delimiters of the structural
/// classes.
pub proof fn lemma_structural_bytes(byte: u8)
    ensures
        is_wanted(byte, STRUCTURAL) <==> delimiter_of(byte) is Some,
{
    assert(0x01u8 & 0x27 != 0 && 0x02u8 & 0x27 != 0 && 0x04u8 & 0x27 != 0 && 0x20u8 & 0x27 != 0
        && 0x08u8 & 0x27 == 0 && 0u8 & 0x27 == 0) by (bit_vector);
}

/// Bytes that are no delimiters leave the builder as it is.
pub proof fn lemma_scan_skip(bytes: Seq<u8>, from: int, to: int)
    requires
        0 <= from <= to,
        forall|i: int| from <= i < to ==> delimiter_of(#[trigger] bytes[i]) is None,
    ensures
        scan(bytes, to) == scan(bytes, from),
    decreases to - from,
{
    if from < to {
        lemma_scan_skip(bytes, from, to - 1);
    }
}

/// Once a record has been found malformed, the rest of the buffer does not
/// change the error.
pub proof fn lemma_scan_error_stays(bytes: Seq<u8>, from: int, to: int)
    requires
        0 <= from <= to,
        scan(bytes, from) is Err,
    ensures
        scan(bytes, to) == scan(bytes, from),
    decreases to - from,
{
    if from < to {
        lemma_scan_error_stays(bytes, from, to - 1);
    }
}

/// The builder after `n` bytes depends on those bytes alone, and the text
/// that it is reading begins among them.
pub proof fn lemma_scan_prefix(a: Seq<u8>, b: Seq<u8>, n: int)
    requires
        0 <= n <= a.len(),
        n <= b.len(),
        a.subrange(0, n) == b.subrange(0, n),
    ensures
        scan(a, n) == scan(b, n),
        scan(a, n) is Ok ==> 0 <= scan(a, n)->Ok_0.start <= n,
    decreases n,
{
    if n > 0 {
        assert forall|i: int| 0 <= i < n implies a[i] == b[i] by {
            assert(a.subrange(0, n)[i] == a[i]);
            assert(b.subrange(0, n)[i] == b[i]);
        }
        assert(a.subrange(0, n - 1) =~= b.subrange(0, n - 1));
        lemma_scan_prefix(a, b, n - 1);
        if scan(a, n - 1) is Ok {
            let start = scan(a, n - 1)->Ok_0.start;
            assert(a.subrange(start, n - 1) =~= b.subrange(start, n - 1));
        }
    }
}

/// Between the offsets already consumed and the next one lies no delimiter.
proof fn lemma_gap_is_text(offsets: Seq<usize>, bytes: Seq<u8>, k: int, start: int)
    requires
        is_offset_list(offsets, bytes, STRUCTURAL),
        0 <= k < offsets.len(),
        0 <= start <= offsets[k],
        forall|m: int| 0 <= m < k ==> offsets[m] < start,
    ensures
        forall|i: int| start <= i < offsets[k] ==> delimiter_of(#[trigger] bytes[i]) is None,
{
    assert forall|i: int| start <= i < offsets[k] implies delimiter_of(#[trigger] bytes[i]) is None by {
        lemma_structural_bytes(bytes[i]);
        if is_wanted(bytes[i], STRUCTURAL) {
            assert(offsets[k] <= offsets.last()) by {
                if k < offsets.len() - 1 {
                    assert(offsets[k] < offsets[offsets.len() - 1]);
                }
            }
            assert(offsets.contains(i as usize));
            let m = choose|m: int| 0 <= m < offsets.len() && offsets[m] == i as usize;
            if m > k {
                assert(offsets[k] < offsets[m]);
            }
        }
    }
}

/// A slice of an ASCII text holds the bytes of the text between its bounds.
proof fn lemma_ascii_slice(line: &str, item: &str, from: int, to: int)
    requires
        is_ascii(line),
        is_ascii(item),
        0 <= from <= to <= line@.len(),
        item@ == line@.subrange(from, to),
    ensures
        line@.len() == line.spec_bytes().len(),
        item.spec_bytes() == line.spec_bytes().subrange(from, to),
{
    is_ascii_spec_bytes(line);
    is_ascii_spec_bytes(item);
    assert(item.spec_bytes() =~= line.spec_bytes().subrange(from, to));
}

proof fn lemma_tokens_push(nodes: Seq<Node>, node: Node)
    ensures
        tokens_of(nodes.push(node)) == tokens_of(nodes).push(node@),
{
    assert(tokens_of(nodes.push(node)) =~= tokens_of(nodes).push(node@));
}

proof fn lemma_tokens_replace_last(nodes: Seq<Node>, node: Node)
    requires
        nodes.len() > 0,
    ensures
        tokens_of(nodes.update(nodes.len() - 1, node)) == tokens_of(nodes).drop_last().push(node@),
{
    assert(tokens_of(nodes.update(nodes.len() - 1, node)) =~= tokens_of(nodes).drop_last().push(
        node@,
    ));
}

/// The delimiter that a byte stands for, if any.
pub fn delimiter_kind(byte: u8) -> (kind: Option<Delimiter>)
    ensures
        kind == delimiter_of(byte),
{
    if byte == 0x20 {
        Some(Delimiter::Space)
    } else if byte == 0x2c {
        Some(Delimiter::Comma)
    } else if byte == 0x3d {
        Some(Delimiter::Equals)
    } else if byte == 0x0a {
        Some(Delimiter::Newline)
    } else {
        None
    }
}

/// Looks up the transition table: what the builder does at a delimiter and
/// where it goes, or `None` where the delimiter has no place.
pub fn transition(phase: Phase, pending: bool, delimiter: Delimiter) -> (entry: Option<Transition>)
    ensures
        entry == transition_of(phase, pending, delimiter),
{
    match phase {
        Phase::Measurement => match delimiter {
            Delimiter::Space => Some(
                Transition { action: Action::PushMeasurement, next: Phase::FieldSet },
            ),
            Delimiter::Comma => Some(
                Transition { action: Action::PushMeasurement, next: Phase::TagSet },
            ),
            Delimiter::Equals => Some(
                Transition { action: Action::PushMeasurement, next: Phase::TagSet },
            ),
            Delimiter::Newline => None,
        },
        Phase::TagSet => match delimiter {
            Delimiter::Equals => if pending {
                None
            } else {
                Some(Transition { action: Action::PushTag, next: Phase::TagSet })
            },
            Delimiter::Comma => if pending {
                Some(Transition { action: Action::FillTag, next: Phase::TagSet })
            } else {
                None
            },
            Delimiter::Space => if pending {
                Some(Transition { action: Action::FillTag, next: Phase::FieldSet })
            } else {
                None
            },
            Delimiter::Newline => None,
        },
        Phase::FieldSet => match delimiter {
            Delimiter::Equals => if pending {
                None
            } else {
                Some(Transition { action: Action::PushField, next: Phase::FieldSet })
            },
            Delimiter::Comma => if pending {
                Some(Transition { action: Action::FillField, next: Phase::FieldSet })
            } else {
                None
            },
            Delimiter::Space => if pending {
                Some(Transition { action: Action::FillField, next: Phase::Timestamp })
            } else {
                None
            },
            Delimiter::Newline => None,
        },
        Phase::Timestamp => match delimiter {
            Delimiter::Newline => Some(
                Transition { action: Action::PushTimestamp, next: Phase::Measurement },
            ),
            _ => None,
        },
    }
}

/// What the builder keeps between two delimiters, as the loop holds it.
pub open spec fn state_of(phase: Phase, pending: bool, start: usize, items: Seq<Node>) -> TapeState {
    TapeState { phase, pending, start: start as int, tokens: tokens_of(items) }
}

/// A token that waits for its value is the last one, and of the kind that
/// the phase fills.
pub open spec fn pending_is_last(phase: Phase, pending: bool, items: Seq<Node>) -> bool {
    pending ==> items.len() > 0 && match phase {
        Phase::TagSet => items.last() is Tag,
        Phase::FieldSet => items.last() is Field,
        _ => false,
    }
}

/// Carries out one action with the text `line[start..end]` on the tokens.
/// Returns whether the text was what the action needs; on `false` the tokens
/// are unchanged.
fn perform_action<'a>(
    items: &mut Vec<Node<'a>>,
    action: Action,
    line: &'a str,
    start: usize,
    end: usize,
) -> (done: bool)
    requires
        is_ascii(line),
        start <= end <= line.spec_bytes().len(),
        action == Action::FillTag ==> old(items)@.len() > 0 && old(items)@.last() is Tag,
        action == Action::FillField ==> old(items)@.len() > 0 && old(items)@.last() is Field,
    ensures
        done == perform(
            tokens_of(old(items)@),
            action,
            line.spec_bytes().subrange(start as int, end as int),
        ) is Some,
        done ==> Some(tokens_of(final(items)@)) == perform(
            tokens_of(old(items)@),
            action,
            line.spec_bytes().subrange(start as int, end as int),
        ),
        !done ==> final(items)@ == old(items)@,
        done && action == Action::PushTag ==> final(items)@.len() > 0 && final(items)@.last() is Tag,
        done && action == Action::PushField ==> final(items)@.len() > 0 && final(items)@.last() is Field,
{
    proof {
        is_ascii_spec_bytes(line);
    }
    let bytes = line.as_bytes();
    let item = line.substring_ascii(start, end);
    let ghost text = line.spec_bytes().subrange(start as int, end as int);
    proof {
        lemma_ascii_slice(line, item, start as int, end as int);
    }
    match action {
        Action::PushMeasurement => {
            proof {
                lemma_tokens_push(items@, Node::Measurement(item));
            }
            items.push(Node::Measurement(item));
            true
        },
        Action::PushTag => {
            let empty = line.substring_ascii(end, end);
            proof {
                lemma_ascii_slice(line, empty, end as int, end as int);
                lemma_tokens_push(items@, Node::Tag { key: item, value: empty });
                assert(empty.spec_bytes() =~= Seq::<u8>::empty());
            }
            items.push(Node::Tag { key: item, value: empty });
            true
        },
        Action::FillTag => {
            let last: usize = items.len() - 1;
            match items[last] {
                Node::Tag { key, value: _ } => {
                    proof {
                        lemma_tokens_replace_last(items@, Node::Tag { key, value: item });
                    }
                    items[last] = Node::Tag { key, value: item };
                },
                _ => {},
            }
            true
        },
        Action::PushField => {
            proof {
                lemma_tokens_push(items@, Node::Field { key: item, value: 0 });
            }
            items.push(Node::Field { key: item, value: 0 });
            true
        },
        Action::FillField => {
            if end == start || bytes[end - 1] != 0x69 {
                assert(text.len() == 0 || text.last() != 0x69);
                return false;
            }
            assert(text.drop_last() =~= line.spec_bytes().subrange(start as int, end - 1));
            if !is_digit_run(bytes, start, end - 1) {
                return false;
            }
            let value: u64 = parse_digits(bytes, start, end - 1);
            let last: usize = items.len() - 1;
            match items[last] {
                Node::Field { key, value: _ } => {
                    proof {
                        lemma_tokens_replace_last(items@, Node::Field { key, value });
                    }
                    items[last] = Node::Field { key, value };
                },
                _ => {},
            }
            true
        },
        Action::PushTimestamp => {
            if end == start || !is_digit_run(bytes, start, end) {
                return false;
            }
            let value: u64 = parse_digits(bytes, start, end);
            proof {
                lemma_tokens_push(items@, Node::Timestamp(value));
            }
            items.push(Node::Timestamp(value));
            true
        },
    }
}

/// Builds the tape of a text from the offsets of its delimiters: walks the
/// offsets once, takes the text between two of them as one item, and lets the
/// transition table decide what the item is.
pub fn build_tape<'a>(line: &'a str, offsets: &Vec<usize>) -> (result: Result<
    Vec<Node<'a>>,
    TapeError,
>)
    requires
        is_ascii(line),
        is_offset_list(offsets@, line.spec_bytes(), STRUCTURAL),
    ensures
        tape_view(result) == tape_of(line.spec_bytes()),
{
    let bytes = line.as_bytes();
    let len: usize = bytes.len();
    let count: usize = offsets.len() - 1;
    let mut items: Vec<Node<'a>> = Vec::with_capacity(offsets.len());
    let mut phase = Phase::Measurement;
    let mut pending = false;
    let mut start: usize = 0;
    let mut k: usize = 0;
    assert(tokens_of(items@) =~= Seq::<Token>::empty());
    while k < count
        invariant
            is_ascii(line),
            bytes@ == line.spec_bytes(),
            len == bytes@.len(),
            is_offset_list(offsets@, bytes@, STRUCTURAL),
            count == offsets.len() - 1,
            k <= count,
            start <= len,
            forall|m: int| 0 <= m < k ==> offsets[m] < start,
            k < offsets.len() ==> start <= offsets[k as int],
            scan(bytes@, start as int) == Ok::<TapeState, TapeError>(
                state_of(phase, pending, start, items@),
            ),
            pending_is_last(phase, pending, items@),
        decreases count - k,
    {
        let end: usize = offsets[k];
        proof {
            assert(offsets[k as int] < offsets[k + 1]);
            lemma_gap_is_text(offsets@, bytes@, k as int, start as int);
            lemma_scan_skip(bytes@, start as int, end as int);
            lemma_structural_bytes(bytes@[end as int]);
        }
        let delimiter = match delimiter_kind(bytes[end]) {
            Some(delimiter) => delimiter,
            None => {
                return Err(TapeError::MalformedRecord { position: end, expected_phase: phase });
            },
        };
        let entry = match transition(phase, pending, delimiter) {
            Some(entry) => entry,
            None => {
                proof {
                    lemma_scan_error_stays(bytes@, end + 1, len as int);
                }
                return Err(TapeError::MalformedRecord { position: end, expected_phase: phase });
            },
        };
        if !perform_action(&mut items, entry.action, line, start, end) {
            proof {
                lemma_scan_error_stays(bytes@, end + 1, len as int);
            }
            return Err(TapeError::MalformedRecord { position: end, expected_phase: phase });
        }
        pending =
        match entry.action {
            Action::PushTag => true,
            Action::PushField => true,
            _ => false,
        };
        phase = entry.next;
        start = end + 1;
        k = k + 1;
    }
    proof {
        lemma_gap_is_text(offsets@, bytes@, count as int, start as int);
        lemma_scan_skip(bytes@, start as int, len as int);
    }
    match phase {
        Phase::Timestamp => {
            if !perform_action(&mut items, Action::PushTimestamp, line, start, len) {
                return Err(TapeError::MalformedRecord { position: len, expected_phase: phase });
            }
            Ok(items)
        },
        _ => {
            if pending {
                Err(TapeError::MalformedRecord { position: len, expected_phase: phase })
            } else {
                Ok(items)
            }
        },
    }
}

/// Tokenizes a text of one record or more, finding its delimiters in chunks
/// of 16 lanes.
pub fn parse_tape(line: &str) -> (result: Result<Vec<Node<'_>>, TapeError>)
    ensures
        tape_view(result) == tokenized(line),
{
    if !line.is_ascii() {
        return Err(TapeError::NotAscii);
    }
    let offsets = shuffle_lookup(line);
    build_tape(line, &offsets)
}

/// Tokenizes a text of one record or more, finding its delimiters in chunks
/// of 32 lanes.
pub fn parse_tape_avx2(line: &str) -> (result: Result<Vec<Node<'_>>, TapeError>)
    ensures
        tape_view(result) == tokenized(line),
{
    if !line.is_ascii() {
        return Err(TapeError::NotAscii);
    }
    let offsets = shuffle_lookup_avx2(line);
    build_tape(line, &offsets)
}

} // verus!
