use msgdict::{
    cp1251_line, line_from_decoded, parse_msg, parse_msg_ext, tokenize_msg, utf8_line, Entry,
    Line, Msg, MsgDictionary, MsgLine,
};

fn mock_dict(data: &[(u32, &str)]) -> MsgDictionary {
    let mut dict = MsgDictionary::new();
    for &(index, value) in data {
        dict.insert(index, MsgLine::String(value.to_string()));
    }
    dict
}

fn new_entry(index: u32, secondary: &[u8], value: &[u8]) -> Entry {
    Entry {
        index,
        secondary: secondary.to_vec(),
        value: value.to_vec(),
        comment: None,
    }
}

fn lex_one_entry(sample: &[u8]) -> Entry {
    let msg = tokenize_msg(sample, true).unwrap();
    assert_eq!(msg.lines.len(), 1);
    match msg.lines.into_iter().next().unwrap() {
        Line::Entry(entry) => entry,
        other => panic!("not an entry: {:?}", other),
    }
}

#[test]
fn parse_sample() {
    const SAMPLE: &[u8] = b"\
        # Transit Name, (pid + 1) * 10 + 8 pm added\n\
        \n\
        # Map 0, Global, base 10\n\
        {10}{}{Global map}\n\
        {15}{}{20car}\n\
        {15}{}{23world}\n\
        {15}{}{03 - A Way To Anywhere.ogg}\
    ";
    let dict = parse_msg(SAMPLE).unwrap();
    let correct = mock_dict(&[
        (10, "Global map"),
        (15, "20car"),
        (15, "23world"),
        (15, "03 - A Way To Anywhere.ogg"),
    ]);
    assert_eq!(dict, correct);
}

#[test]
fn test_all_entry_impls() {
    const SAMPLE: &str = "{1}{foo}{bar}";
    assert_eq!(lex_one_entry(SAMPLE.as_bytes()), new_entry(1, b"foo", b"bar"));
}

#[test]
fn test_all_entry_impls_bytes() {
    const SAMPLE: &[u8] = b"{1}{foo}{bar}";
    assert_eq!(lex_one_entry(SAMPLE), new_entry(1, b"foo", b"bar"));
}

#[test]
fn lex_entry() {
    let samples: &[(&str, Entry)] = &[
        (
            "{4294967295}{             zxc}{zxc              zxc}",
            new_entry(4294967295, b"             zxc", b"zxc              zxc"),
        ),
        ("{0}{}{}", new_entry(0, b"", b"")),
        ("{1}{\n}{\n}", new_entry(1, b"\n", b"\n")),
        (
            "{2}{\n foo \n   \n}{\n\n\n   bar}",
            new_entry(2, b"\n foo \n   \n", b"\n\n\n   bar"),
        ),
    ];
    for (sample, correct) in samples {
        assert_eq!(&lex_one_entry(sample.as_bytes()), correct);
    }
}

#[test]
fn lex_msg() {
    const SAMPLE: &str = "\
        \n\
        # Transit Name, (pid + 1) * 10 + 8 pm added\n\
        \n\
        # Map 0, Global, base 10\n\
        {10}{}{Global map}\n\
        {15}{}{20car}\n\
        {15}{}{23world}\n\
        {15}{}{03 - A Way To Anywhere.ogg}\
    ";
    let entry_line = |index, secondary: &[u8], value: &[u8]| {
        Line::Entry(new_entry(index, secondary, value))
    };
    let correct = Msg {
        lines: vec![
            Line::Break,
            Line::Comment(b"Transit Name, (pid + 1) * 10 + 8 pm added".to_vec()),
            Line::Break,
            Line::Comment(b"Map 0, Global, base 10".to_vec()),
            entry_line(10, b"", b"Global map"),
            entry_line(15, b"", b"20car"),
            entry_line(15, b"", b"23world"),
            entry_line(15, b"", b"03 - A Way To Anywhere.ogg"),
        ],
    };
    assert_eq!(tokenize_msg(SAMPLE.as_bytes(), false).unwrap(), correct);
}

#[test]
fn basic_scenario() {
    let dict = parse_msg(b"{10}{}{Global map}\n{15}{}{20car}\n{15}{}{23world}").unwrap();
    assert_eq!(dict.get_first_string(10), Some("Global map"));
    assert_eq!(dict.get_first_string(15), Some("20car"));
    assert_eq!(dict.get_all_strings(15), vec![(0, "20car"), (1, "23world")]);
    assert_eq!(dict.get_all_strings(10), vec![(0, "Global map")]);
    assert_eq!(dict.get_first_string(11), None);
    assert_eq!(dict.get_all_strings(11), vec![]);
}

#[test]
fn comment_skip_scenario() {
    let dict = parse_msg(b"# header\n{1}{}{Test}").unwrap();
    assert_eq!(dict.iter_first_strings(), vec![(1, "Test")]);
    assert_eq!(dict, mock_dict(&[(1, "Test")]));
}

#[test]
fn slash_comment_and_trailing_comment() {
    let msg = tokenize_msg(b"  // note\n{3}{}{x}  # tail", true).unwrap();
    assert_eq!(msg.lines[0], Line::Comment(b"note".to_vec()));
    assert_eq!(
        msg.lines[1],
        Line::Entry(Entry {
            index: 3,
            secondary: vec![],
            value: b"x".to_vec(),
            comment: Some(b"tail".to_vec()),
        })
    );
}

#[test]
fn non_utf8_value_kept_as_bytes() {
    let dict = parse_msg(b"{7}{}{ab\xff\xfe}").unwrap();
    assert_eq!(dict.get_first_string(7), None);
    assert_eq!(dict.get_first_bytes(7), Some(&b"ab\xff\xfe"[..]));
    assert_eq!(dict.get_all_strings(7), vec![]);
    assert_eq!(dict.iter_first_strings(), vec![]);
}

#[test]
fn text_value_bytes_are_utf8() {
    let dict = parse_msg("{2}{}{Привет}".as_bytes()).unwrap();
    assert_eq!(dict.get_first_string(2), Some("Привет"));
    assert_eq!(dict.get_first_bytes(2), Some("Привет".as_bytes()));
}

#[test]
fn exhaustive_mode() {
    let input = b"{1}{}{ok} trailing garbage";
    let err = tokenize_msg(input, true).unwrap_err();
    assert_eq!(err, "Failed to exhaust input to the end:  trailing garbage");
    let msg = tokenize_msg(input, false).unwrap();
    assert_eq!(msg.lines, vec![Line::Entry(new_entry(1, b"", b"ok"))]);
    assert!(parse_msg(input).is_err());
}

#[test]
fn long_tail_is_cut() {
    let err = tokenize_msg(b"{1}{}{ok}x123456789012345678901234", true).unwrap_err();
    assert_eq!(err, "Failed to exhaust input to the end: x1234567890123456789");
}

#[test]
fn empty_and_comment_only_inputs() {
    assert_eq!(parse_msg(b"").unwrap(), MsgDictionary::new());
    assert_eq!(parse_msg(b"# a\n\n   \n// b\r\n").unwrap(), MsgDictionary::new());
    assert_eq!(tokenize_msg(b"", true).unwrap().lines, vec![Line::Break]);
}

#[test]
fn max_index_and_multiline_value() {
    let dict = parse_msg(b"{4294967295}{}{line one\nline two}").unwrap();
    assert_eq!(dict.get_first_string(4294967295), Some("line one\nline two"));
}

#[test]
fn crlf_line_breaks() {
    let dict = parse_msg(b"{1}{}{a}\r\n{1}{}{b}\r\n").unwrap();
    assert_eq!(dict.get_all_strings(1), vec![(0, "a"), (1, "b")]);
}

#[test]
fn sub_indices_follow_document_order() {
    let dict = parse_msg(b"{5}{}{a}\n# c\n{4}{}{x}\n\n{5}{}{b}\n{5}{}{c}").unwrap();
    assert_eq!(dict.get_all_strings(5), vec![(0, "a"), (1, "b"), (2, "c")]);
    assert_eq!(dict.iter_first_strings(), vec![(4, "x"), (5, "a")]);
    let plain = parse_msg(b"{5}{}{a}\n{4}{}{x}\n{5}{}{b}\n{5}{}{c}").unwrap();
    assert_eq!(dict, plain);
}

#[test]
fn parsing_twice_gives_equal_dictionaries() {
    let input = b"{1}{}{a}\n{1}{}{b}\n{9}{}{\xff}";
    assert_eq!(parse_msg(input).unwrap(), parse_msg(input).unwrap());
}

#[test]
fn overflowing_index_is_error() {
    let err = parse_msg(b"{4294967296}{}{x}").unwrap_err();
    assert_eq!(err, "Malformed entry at: 4294967296}{}{x}");
}

#[test]
fn missing_index_is_error() {
    assert_eq!(parse_msg(b"{}{}{x}").unwrap_err(), "Malformed entry at: }{}{x}");
}

#[test]
fn unterminated_field_is_error() {
    assert_eq!(parse_msg(b"{1}{}{abc").unwrap_err(), "Malformed entry at: {abc");
    assert_eq!(parse_msg(b"{1}x").unwrap_err(), "Malformed entry at: x");
}

#[test]
fn non_empty_secondary_is_error() {
    let err = parse_msg(b"{1}{}{a}\n{2}{sec}{b}\n{3}{more}{c}").unwrap_err();
    assert_eq!(err, "Non-empty secondary key: sec");
}

#[test]
fn custom_converter_is_used() {
    let dict = parse_msg_ext(b"{1}{}{abc}", |b: &[u8]| MsgLine::Bytes(b.to_vec())).unwrap();
    assert_eq!(dict.get_first_string(1), None);
    assert_eq!(dict.get_first_bytes(1), Some(&b"abc"[..]));
}

#[test]
fn cp1251_converter_decodes() {
    let line = cp1251_line(&[0xC0, 0xE1, 0x41]);
    assert_eq!(line, MsgLine::String("Аба".chars().take(2).collect::<String>() + "A"));
    let dict = parse_msg_ext(b"{1}{}{\xcf\xf0\xe8}", cp1251_line).unwrap();
    assert_eq!(dict.get_first_string(1), Some("При"));
}

#[test]
fn decoded_or_bytes() {
    assert_eq!(
        line_from_decoded(b"xy", Some("z".to_string())),
        MsgLine::String("z".to_string())
    );
    assert_eq!(line_from_decoded(b"xy", None), MsgLine::Bytes(b"xy".to_vec()));
    assert_eq!(utf8_line(b"ok"), MsgLine::String("ok".to_string()));
    assert_eq!(utf8_line(b"\xc3"), MsgLine::Bytes(vec![0xc3]));
}

#[test]
fn line_accessors() {
    let text = MsgLine::String("hi".to_string());
    assert_eq!(text.string(), Some("hi"));
    assert_eq!(text.bytes(), b"hi");
    let raw = MsgLine::Bytes(vec![1, 2]);
    assert_eq!(raw.string(), None);
    assert_eq!(raw.bytes(), &[1u8, 2][..]);
}
