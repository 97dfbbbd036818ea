use influx_parser::classifier::{ALL_DELIMITERS, STRUCTURAL};
use influx_parser::tape::Delimiter::{Comma, Equals, Newline, Space};
use influx_parser::tape::{delimiter_kind, transition, Action, Delimiter, Transition};
use influx_parser::{build_tape, classify, parse_tape, parse_tape_avx2, Node, Phase, Strategy, TapeError};

fn both(line: &str) -> Result<Vec<Node<'_>>, TapeError> {
    let narrow = parse_tape(line);
    let wide = parse_tape_avx2(line);
    assert_eq!(narrow, wide);
    narrow
}

fn malformed(position: usize, expected_phase: Phase) -> TapeError {
    TapeError::MalformedRecord { position, expected_phase }
}

#[test]
fn record_with_a_tag() {
    assert_eq!(
        both("ab,cd=ef gh=15i,jk=16i 12345678"),
        Ok(vec![
            Node::Measurement("ab"),
            Node::Tag { key: "cd", value: "ef" },
            Node::Field { key: "gh", value: 15 },
            Node::Field { key: "jk", value: 16 },
            Node::Timestamp(12345678),
        ])
    );
}

#[test]
fn record_without_tags() {
    assert_eq!(
        both("ab gh=15i,jk=16i 12345678"),
        Ok(vec![
            Node::Measurement("ab"),
            Node::Field { key: "gh", value: 15 },
            Node::Field { key: "jk", value: 16 },
            Node::Timestamp(12345678),
        ])
    );
}

#[test]
fn two_records() {
    assert_eq!(
        both("ab gh=15i,jk=16i 12345678\ncd,xe=la oiw=61i 12345679"),
        Ok(vec![
            Node::Measurement("ab"),
            Node::Field { key: "gh", value: 15 },
            Node::Field { key: "jk", value: 16 },
            Node::Timestamp(12345678),
            Node::Measurement("cd"),
            Node::Tag { key: "xe", value: "la" },
            Node::Field { key: "oiw", value: 61 },
            Node::Timestamp(12345679),
        ])
    );
}

#[test]
fn last_newline_may_be_there_or_not() {
    let expected = Ok(vec![
        Node::Measurement("m"),
        Node::Field { key: "f", value: 1 },
        Node::Timestamp(2),
    ]);
    assert_eq!(both("m f=1i 2"), expected);
    assert_eq!(both("m f=1i 2\n"), expected);
}

#[test]
fn token_count_is_one_plus_tags_plus_fields_plus_one() {
    let line = "test,od27r=11YaN,bHueo=zzL78,JQB4N=txYCM,uIiRV=31biD,JdqDb=PFxji e65Xk=3772672500i,7Tdmm=964201946i,VygQy=888662919i,vC0Ic=2202051695i,t3GsG=4284953162i 1695559737257\n";
    let tape = both(line).unwrap();
    assert_eq!(tape.len(), 1 + 5 + 5 + 1);
    assert_eq!(tape[0], Node::Measurement("test"));
    assert_eq!(tape[1], Node::Tag { key: "od27r", value: "11YaN" });
    assert_eq!(tape[5], Node::Tag { key: "JdqDb", value: "PFxji" });
    assert_eq!(tape[6], Node::Field { key: "e65Xk", value: 3772672500 });
    assert_eq!(tape[10], Node::Field { key: "t3GsG", value: 4284953162 });
    assert_eq!(tape[11], Node::Timestamp(1695559737257));
}

#[test]
fn records_longer_than_a_chunk() {
    let line = "measurement_with_a_long_name,first_tag_key=first_tag_value field_key_number_one=1234567890i 1600000000000\n";
    assert_eq!(
        both(line),
        Ok(vec![
            Node::Measurement("measurement_with_a_long_name"),
            Node::Tag { key: "first_tag_key", value: "first_tag_value" },
            Node::Field { key: "field_key_number_one", value: 1234567890 },
            Node::Timestamp(1600000000000),
        ])
    );
}

#[test]
fn empty_buffer_is_an_empty_tape() {
    assert_eq!(both(""), Ok(vec![]));
}

#[test]
fn marker_letter_in_names_is_text() {
    assert_eq!(
        both("idle,missing=limit iii=3i 4"),
        Ok(vec![
            Node::Measurement("idle"),
            Node::Tag { key: "missing", value: "limit" },
            Node::Field { key: "iii", value: 3 },
            Node::Timestamp(4),
        ])
    );
}

#[test]
fn empty_texts_are_kept() {
    assert_eq!(
        both(",= =i 0"),
        Ok(vec![
            Node::Measurement(""),
            Node::Tag { key: "", value: "" },
            Node::Field { key: "", value: 0 },
            Node::Timestamp(0),
        ])
    );
}

#[test]
fn equals_after_the_measurement_opens_the_tags() {
    assert_eq!(
        both("m=k=v f=1i 2"),
        Ok(vec![
            Node::Measurement("m"),
            Node::Tag { key: "k", value: "v" },
            Node::Field { key: "f", value: 1 },
            Node::Timestamp(2),
        ])
    );
}

#[test]
fn text_that_breaks_off_before_a_value_is_open_is_dropped() {
    assert_eq!(both("ab"), Ok(vec![]));
    assert_eq!(both("ab,"), Ok(vec![Node::Measurement("ab")]));
    assert_eq!(
        both("ab,cd=ef "),
        Ok(vec![Node::Measurement("ab"), Node::Tag { key: "cd", value: "ef" }])
    );
    assert_eq!(
        both("m f=1i 2\nnext"),
        Ok(vec![
            Node::Measurement("m"),
            Node::Field { key: "f", value: 1 },
            Node::Timestamp(2),
        ])
    );
}

#[test]
fn value_still_open_at_the_end_is_an_error() {
    assert_eq!(both("ab,cd=ef"), Err(malformed(8, Phase::TagSet)));
    assert_eq!(both("ab gh=15i"), Err(malformed(9, Phase::FieldSet)));
    assert_eq!(both("ab,cd="), Err(malformed(6, Phase::TagSet)));
}

#[test]
fn newline_before_the_timestamp_is_an_error() {
    assert_eq!(both("ab\ncd"), Err(malformed(2, Phase::Measurement)));
    assert_eq!(both("ab,cd=ef\n"), Err(malformed(8, Phase::TagSet)));
    assert_eq!(both("ab,cd=ef gh=1i\n5"), Err(malformed(14, Phase::FieldSet)));
}

#[test]
fn delimiters_in_the_timestamp_are_errors() {
    assert_eq!(both("ab gh=1i 5 6"), Err(malformed(10, Phase::Timestamp)));
    assert_eq!(both("ab gh=1i 5,6"), Err(malformed(10, Phase::Timestamp)));
    assert_eq!(both("ab gh=1i 5=6"), Err(malformed(10, Phase::Timestamp)));
}

#[test]
fn pairs_without_key_or_value_are_errors() {
    // a value without a key
    assert_eq!(both("ab,cd ef=1i 5"), Err(malformed(5, Phase::TagSet)));
    assert_eq!(both("ab,cd=ef,gh ij=1i 5"), Err(malformed(11, Phase::TagSet)));
    assert_eq!(both("ab gh,"), Err(malformed(5, Phase::FieldSet)));
    assert_eq!(both("ab  5"), Err(malformed(3, Phase::FieldSet)));
    // a second key before the value
    assert_eq!(both("ab,cd=ef=gh"), Err(malformed(8, Phase::TagSet)));
    assert_eq!(both("ab gh=1i=2i 5"), Err(malformed(8, Phase::FieldSet)));
}

#[test]
fn field_values_must_be_digits_and_the_marker() {
    assert_eq!(both("ab gh=15 5"), Err(malformed(8, Phase::FieldSet)));
    assert_eq!(both("ab gh=1x5i 5"), Err(malformed(10, Phase::FieldSet)));
    assert_eq!(both("ab gh=, 5"), Err(malformed(6, Phase::FieldSet)));
    assert_eq!(both("ab gh=-1i 5"), Err(malformed(9, Phase::FieldSet)));
    assert_eq!(both("ab gh=1i,jk=2u 5"), Err(malformed(14, Phase::FieldSet)));
}

#[test]
fn timestamps_must_be_digits() {
    assert_eq!(both("ab gh=1i "), Err(malformed(9, Phase::Timestamp)));
    assert_eq!(both("ab gh=1i \n"), Err(malformed(9, Phase::Timestamp)));
    assert_eq!(both("ab gh=1i 12x4"), Err(malformed(13, Phase::Timestamp)));
    assert_eq!(both("ab gh=1i 5i\n"), Err(malformed(11, Phase::Timestamp)));
}

#[test]
fn error_in_the_second_record_names_its_place() {
    assert_eq!(both("m f=1i 2\nn,k=v\n"), Err(malformed(14, Phase::TagSet)));
}

#[test]
fn values_wrap_at_the_width_of_the_value() {
    assert_eq!(
        both("m f=18446744073709551616i 18446744073709551617"),
        Ok(vec![
            Node::Measurement("m"),
            Node::Field { key: "f", value: 0 },
            Node::Timestamp(1),
        ])
    );
}

#[test]
fn text_outside_ascii_is_refused() {
    assert_eq!(both("caf\u{e9} f=1i 2"), Err(TapeError::NotAscii));
    assert_eq!(both("m,k=\u{fc} f=1i 2"), Err(TapeError::NotAscii));
}

#[test]
fn tape_from_offsets_of_any_strategy() {
    let line = "ab,cd=ef gh=15i,jk=16i 12345678\n";
    let expected = parse_tape(line);
    for strategy in [Strategy::Scalar, Strategy::Width16, Strategy::Width32] {
        let offsets = classify(line.as_bytes(), STRUCTURAL, strategy);
        assert_eq!(build_tape(line, &offsets), expected);
    }
    assert_eq!(expected.unwrap().len(), 5);
    // with the marker among the offsets the list is another one
    assert_ne!(
        classify(line.as_bytes(), ALL_DELIMITERS, Strategy::Scalar),
        classify(line.as_bytes(), STRUCTURAL, Strategy::Scalar)
    );
}

#[test]
fn delimiter_kinds() {
    assert_eq!(delimiter_kind(b' '), Some(Delimiter::Space));
    assert_eq!(delimiter_kind(b','), Some(Delimiter::Comma));
    assert_eq!(delimiter_kind(b'='), Some(Delimiter::Equals));
    assert_eq!(delimiter_kind(b'\n'), Some(Delimiter::Newline));
    assert_eq!(delimiter_kind(b'i'), None);
    assert_eq!(delimiter_kind(0), None);
    assert_eq!(delimiter_kind(b'a'), None);
}

#[test]
fn transition_table() {
    let entry = |action, next| Some(Transition { action, next });
    for pending in [false, true] {
        assert_eq!(transition(Phase::Measurement, pending, Space), entry(Action::PushMeasurement, Phase::FieldSet));
        assert_eq!(transition(Phase::Measurement, pending, Comma), entry(Action::PushMeasurement, Phase::TagSet));
        assert_eq!(transition(Phase::Measurement, pending, Equals), entry(Action::PushMeasurement, Phase::TagSet));
        assert_eq!(transition(Phase::Measurement, pending, Newline), None);
        assert_eq!(transition(Phase::TagSet, pending, Newline), None);
        assert_eq!(transition(Phase::FieldSet, pending, Newline), None);
        assert_eq!(transition(Phase::Timestamp, pending, Space), None);
        assert_eq!(transition(Phase::Timestamp, pending, Comma), None);
        assert_eq!(transition(Phase::Timestamp, pending, Equals), None);
        assert_eq!(transition(Phase::Timestamp, pending, Newline), entry(Action::PushTimestamp, Phase::Measurement));
    }
    assert_eq!(transition(Phase::TagSet, false, Equals), entry(Action::PushTag, Phase::TagSet));
    assert_eq!(transition(Phase::TagSet, true, Equals), None);
    assert_eq!(transition(Phase::TagSet, true, Comma), entry(Action::FillTag, Phase::TagSet));
    assert_eq!(transition(Phase::TagSet, false, Comma), None);
    assert_eq!(transition(Phase::TagSet, true, Space), entry(Action::FillTag, Phase::FieldSet));
    assert_eq!(transition(Phase::TagSet, false, Space), None);
    assert_eq!(transition(Phase::FieldSet, false, Equals), entry(Action::PushField, Phase::FieldSet));
    assert_eq!(transition(Phase::FieldSet, true, Equals), None);
    assert_eq!(transition(Phase::FieldSet, true, Comma), entry(Action::FillField, Phase::FieldSet));
    assert_eq!(transition(Phase::FieldSet, false, Comma), None);
    assert_eq!(transition(Phase::FieldSet, true, Space), entry(Action::FillField, Phase::Timestamp));
    assert_eq!(transition(Phase::FieldSet, false, Space), None);
}
