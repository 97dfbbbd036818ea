use influx_parser::generator::{assemble_line, line_from_draws, push_decimal};
use influx_parser::{gen_line, parse_tape, parse_tape_avx2, Node};

fn is_random_name(text: &str) -> bool {
    text.len() == 5 && text.bytes().all(|b| b.is_ascii_alphanumeric())
}

fn decimal(n: u128) -> String {
    let mut text = String::new();
    push_decimal(&mut text, n);
    text
}

#[test]
fn numerals() {
    assert_eq!(decimal(0), "0");
    assert_eq!(decimal(7), "7");
    assert_eq!(decimal(10), "10");
    assert_eq!(decimal(1695559737257), "1695559737257");
    assert_eq!(decimal(4294967295), "4294967295");
    assert_eq!(decimal(u128::MAX), "340282366920938463463374607431768211455");
}

#[test]
fn numeral_is_appended() {
    let mut text = String::from("usage=");
    push_decimal(&mut text, 4096);
    assert_eq!(text, "usage=4096");
}

#[test]
fn line_with_tags() {
    let tags = vec![
        (String::from("host"), String::from("a1")),
        (String::from("zone"), String::from("b2")),
    ];
    let fields = vec![(String::from("usage"), 42u32), (String::from("idle"), 0u32)];
    assert_eq!(
        assemble_line("cpu", &tags, &fields, 1234),
        "cpu,host=a1,zone=b2 usage=42i,idle=0i 1234\n"
    );
}

#[test]
fn line_without_tags() {
    let fields = vec![(String::from("usage"), 4294967295u32)];
    assert_eq!(assemble_line("cpu", &vec![], &fields, 0), "cpu usage=4294967295i 0\n");
}

#[test]
fn written_line_is_read_back() {
    let tags = vec![(String::from("host"), String::from("a1"))];
    let fields = vec![(String::from("usage"), 42u32), (String::from("idle"), 7u32)];
    let line = assemble_line("cpu", &tags, &fields, 1695559737257);
    assert_eq!(
        parse_tape(&line),
        Ok(vec![
            Node::Measurement("cpu"),
            Node::Tag { key: "host", value: "a1" },
            Node::Field { key: "usage", value: 42 },
            Node::Field { key: "idle", value: 7 },
            Node::Timestamp(1695559737257),
        ])
    );
}

#[test]
fn generated_line_has_twelve_tokens() {
    let line = gen_line().unwrap();
    assert!(line.starts_with("test,"));
    assert!(line.ends_with('\n'));
    let tape = parse_tape(&line).unwrap();
    assert_eq!(parse_tape_avx2(&line).unwrap(), tape);
    assert_eq!(tape.len(), 1 + 5 + 5 + 1);
    assert_eq!(tape[0], Node::Measurement("test"));
    for node in &tape[1..6] {
        match node {
            Node::Tag { key, value } => {
                assert!(is_random_name(key));
                assert!(is_random_name(value));
            }
            other => panic!("not a tag: {:?}", other),
        }
    }
    for node in &tape[6..11] {
        match node {
            Node::Field { key, value } => {
                assert!(is_random_name(key));
                assert!(*value <= u32::MAX as u64);
            }
            other => panic!("not a field: {:?}", other),
        }
    }
    assert!(matches!(tape[11], Node::Timestamp(_)));
}

#[test]
fn generated_lines_differ() {
    let first = gen_line().unwrap();
    let second = gen_line().unwrap();
    let third = gen_line().unwrap();
    assert!(first != second || second != third);
}

#[test]
fn generated_lines_make_a_batch() {
    let mut batch = String::new();
    for _ in 0..5 {
        batch.push_str(&gen_line().unwrap());
    }
    assert_eq!(parse_tape(&batch).unwrap().len(), 5 * 12);
}

#[test]
fn line_of_draws_needs_a_time() {
    let tags = vec![(String::from("Ab3dE"), String::from("x9Y8z"))];
    let fields = vec![(String::from("k0k1k"), 4284953162u32)];
    assert_eq!(line_from_draws(&tags, &fields, None), None);
    assert_eq!(
        line_from_draws(&tags, &fields, Some(1695559737257)),
        Some(String::from("test,Ab3dE=x9Y8z k0k1k=4284953162i 1695559737257\n"))
    );
    assert_eq!(
        line_from_draws(&vec![], &fields, Some(0)),
        Some(String::from("test k0k1k=4284953162i 0\n"))
    );
}
