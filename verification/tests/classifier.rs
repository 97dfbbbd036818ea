use influx_parser::classifier::{ALL_DELIMITERS, COMMA, MARKER, NEWLINE, SPACE, STRUCTURAL};
use influx_parser::{classify, shuffle_lookup, shuffle_lookup_avx2, Strategy};

fn by_hand(bytes: &[u8], delimiters: &[u8]) -> Vec<usize> {
    let mut offsets = Vec::new();
    for (i, b) in bytes.iter().enumerate() {
        if delimiters.contains(b) {
            offsets.push(i);
        }
    }
    offsets.push(bytes.len());
    offsets
}

fn all_three(bytes: &[u8], wanted: u8) -> Vec<usize> {
    let scalar = classify(bytes, wanted, Strategy::Scalar);
    let narrow = classify(bytes, wanted, Strategy::Width16);
    let wide = classify(bytes, wanted, Strategy::Width32);
    assert_eq!(scalar, narrow);
    assert_eq!(scalar, wide);
    scalar
}

#[test]
fn comma_equals_has_two_offsets_and_the_end() {
    assert_eq!(all_three(b",=", STRUCTURAL), vec![0, 1, 2]);
}

#[test]
fn empty_buffer_has_only_the_end() {
    assert_eq!(all_three(b"", STRUCTURAL), vec![0]);
    assert_eq!(all_three(b"", ALL_DELIMITERS), vec![0]);
}

#[test]
fn buffer_without_delimiters_has_only_the_end() {
    assert_eq!(all_three(b"abcdefgh", STRUCTURAL), vec![8]);
}

#[test]
fn marker_is_found_only_when_wanted() {
    let line = b"gh=15i,jk=16i 7";
    assert_eq!(all_three(line, STRUCTURAL), vec![2, 6, 9, 13, 15]);
    assert_eq!(all_three(line, ALL_DELIMITERS), vec![2, 5, 6, 9, 12, 13, 15]);
    assert_eq!(all_three(line, MARKER), vec![5, 12, 15]);
}

#[test]
fn single_classes_are_told_apart() {
    let line = b"a b,c=d\ne";
    assert_eq!(all_three(line, SPACE), vec![1, 9]);
    assert_eq!(all_three(line, COMMA), vec![3, 9]);
    assert_eq!(all_three(line, NEWLINE), vec![7, 9]);
    assert_eq!(all_three(line, 0), vec![9]);
}

#[test]
fn bytes_sharing_one_nibble_with_a_delimiter_are_no_delimiters() {
    // 0x00, 0x0c, 0x0d, 0x2a, 0x2d, 0x30, 0x3a, 0x3c, 0x60, 0x29, 0x39, 0x6a, 0x6c
    let line = [
        0x00u8, 0x0c, 0x0d, 0x2a, 0x2d, 0x30, 0x3a, 0x3c, 0x60, 0x29, 0x39, 0x6a, 0x6c, 0x80, 0xa0,
        0xac, 0xbd, 0xe9, 0xff,
    ];
    assert_eq!(all_three(&line, ALL_DELIMITERS), vec![line.len()]);
}

#[test]
fn every_byte_value_is_classified_as_by_comparison() {
    let line: Vec<u8> = (0..=255u8).collect();
    assert_eq!(
        all_three(&line, ALL_DELIMITERS),
        vec![0x0a, 0x20, 0x2c, 0x3d, 0x69, 256]
    );
    assert_eq!(all_three(&line, STRUCTURAL), vec![0x0a, 0x20, 0x2c, 0x3d, 256]);
}

#[test]
fn lengths_around_the_chunk_widths() {
    for len in [1usize, 15, 16, 17, 31, 32, 33, 47, 48, 49, 63, 64, 65, 95, 96, 97] {
        // a delimiter in the first and the last place, and around each multiple of 16
        let mut line = vec![b'x'; len];
        line[0] = b',';
        line[len - 1] = b'=';
        let mut i = 16;
        while i < len {
            line[i - 1] = b' ';
            line[i] = b'\n';
            i += 16;
        }
        line[len - 1] = b'=';
        let expected = by_hand(&line, b" ,=\n");
        assert_eq!(all_three(&line, STRUCTURAL), expected, "length {}", len);
        assert_eq!(*expected.last().unwrap(), len);
    }
}

#[test]
fn exact_offsets_at_a_chunk_boundary() {
    // 33 bytes: delimiters at 15, 16, 31, 32
    let mut line = vec![b'a'; 33];
    line[15] = b' ';
    line[16] = b',';
    line[31] = b'=';
    line[32] = b'\n';
    assert_eq!(all_three(&line, STRUCTURAL), vec![15, 16, 31, 32, 33]);
    // 32 bytes: the last chunk is full
    line.truncate(32);
    assert_eq!(all_three(&line, STRUCTURAL), vec![15, 16, 31, 32]);
    // 31 bytes: one lane of padding
    line.truncate(31);
    assert_eq!(all_three(&line, STRUCTURAL), vec![15, 16, 31]);
}

#[test]
fn a_buffer_of_delimiters_only() {
    let line = vec![b','; 40];
    let mut expected: Vec<usize> = (0..40).collect();
    expected.push(40);
    assert_eq!(all_three(&line, STRUCTURAL), expected);
}

#[test]
fn offsets_ascend_and_point_at_delimiters() {
    let line = "test,od27r=11YaN,bHueo=zzL78 e65Xk=3772672500i,7Tdmm=964201946i 1695559737257\n";
    let offsets = shuffle_lookup(line);
    assert_eq!(offsets, shuffle_lookup_avx2(line));
    for pair in offsets.windows(2) {
        assert!(pair[0] < pair[1]);
    }
    let (end, found) = offsets.split_last().unwrap();
    assert_eq!(*end, line.len());
    for &o in found {
        assert!(matches!(line.as_bytes()[o], b' ' | b',' | b'=' | b'\n'));
    }
    assert_eq!(found.len(), 10);
}

#[test]
fn text_outside_ascii_is_scanned_by_bytes() {
    let line = "é,ü=ö";
    assert_eq!(shuffle_lookup(line), vec![2, 5, 8]);
    assert_eq!(shuffle_lookup_avx2(line), vec![2, 5, 8]);
}
