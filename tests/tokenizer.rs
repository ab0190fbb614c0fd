use json_stream::{
    number_is_valid, Buffer, Error, JsonToken, Literal, Options, ReadEvent, Step, Tokenizer,
};

/// Feeds `input` to a tokenizer in reads of at most `chunk` bytes and
/// collects what it yields, up to the end of the stream or the first error.
fn tokenize(input: &[u8], chunk: usize) -> Vec<Result<JsonToken, Error>> {
    let mut t = Tokenizer::new();
    let mut fed = 0;
    let mut out = Vec::new();
    loop {
        match t.next() {
            Step::Token(tok) => out.push(Ok(tok)),
            Step::Failed(e) => {
                out.push(Err(e));
                return out;
            }
            Step::End => return out,
            Step::NeedInput => {
                if fed >= input.len() {
                    t.supply(ReadEvent::EndOfStream);
                } else {
                    let end = std::cmp::min(fed + chunk, input.len());
                    t.supply(ReadEvent::Data(input[fed..end].to_vec()));
                    fed = end;
                }
            }
        }
    }
}

fn num(s: &str) -> Result<JsonToken, Error> {
    Ok(JsonToken::Number(s.as_bytes().to_vec()))
}

fn string(s: &str) -> Result<JsonToken, Error> {
    Ok(JsonToken::String(s.as_bytes().to_vec()))
}

#[test]
fn object_read_one_byte_at_a_time() {
    let input = br#"{"a":1,"b":[true,null]}"#;
    let expected = vec![
        Ok(JsonToken::BeginObject),
        string("a"),
        Ok(JsonToken::Colon),
        num("1"),
        Ok(JsonToken::Comma),
        string("b"),
        Ok(JsonToken::Colon),
        Ok(JsonToken::BeginArray),
        Ok(JsonToken::True),
        Ok(JsonToken::Comma),
        Ok(JsonToken::Null),
        Ok(JsonToken::EndArray),
        Ok(JsonToken::EndObject),
    ];
    assert_eq!(tokenize(input, 1), expected);
    for chunk in 2..=input.len() + 1 {
        assert_eq!(tokenize(input, chunk), expected);
    }
}

#[test]
fn chunking_does_not_change_tokens() {
    let input = b" [ -12.5e+3 , \"x\\u00e9\\\"y\" ,false,\r\n{\"k\" : 0.25E2} , 7 ] ";
    let whole = tokenize(input, input.len());
    assert_eq!(whole.len(), 15);
    for chunk in 1..input.len() {
        assert_eq!(tokenize(input, chunk), whole);
    }
}

#[test]
fn whitespace_only_input_ends_cleanly() {
    assert_eq!(tokenize(b"", 1), vec![]);
    assert_eq!(tokenize(b" \t\r\n  \r", 1), vec![]);
    assert_eq!(tokenize(b" \t\r\n  \r", 100), vec![]);
}

#[test]
fn truncated_literal_fails() {
    assert_eq!(tokenize(b"tru", 1), vec![Err(Error::UnexpectedEndOfInput)]);
    assert_eq!(tokenize(b"fals", 3), vec![Err(Error::UnexpectedEndOfInput)]);
    assert_eq!(tokenize(b"[n", 8), vec![Ok(JsonToken::BeginArray), Err(Error::UnexpectedEndOfInput)]);
}

#[test]
fn numbers_split_at_structural_bytes() {
    assert_eq!(
        tokenize(b"[1,2]", 1),
        vec![
            Ok(JsonToken::BeginArray),
            num("1"),
            Ok(JsonToken::Comma),
            num("2"),
            Ok(JsonToken::EndArray),
        ]
    );
}

#[test]
fn number_spans_parse_to_their_values() {
    let cases: Vec<(&str, f64)> = vec![
        ("0", 0.0),
        ("-0", 0.0),
        ("42", 42.0),
        ("-12.5e3", -12500.0),
        ("0.25E+2", 25.0),
        ("1e-2", 0.01),
    ];
    for (text, value) in cases {
        let toks = tokenize(text.as_bytes(), 1);
        assert_eq!(toks, vec![num(text)]);
        if let Ok(JsonToken::Number(bytes)) = &toks[0] {
            let parsed: f64 = String::from_utf8(bytes.clone()).unwrap().parse().unwrap();
            assert_eq!(parsed, value);
        }
    }
}

#[test]
fn escaped_quote_does_not_end_a_string() {
    assert_eq!(tokenize(br#""a\"b""#, 1), vec![string(r#"a\"b"#)]);
    assert_eq!(tokenize(br#""a\\" 1"#, 2), vec![string(r#"a\\"#), num("1")]);
}

#[test]
fn leading_zero_is_malformed() {
    assert_eq!(tokenize(b"01", 1), vec![Err(Error::MalformedNumber { position: 0 })]);
    assert_eq!(tokenize(b"01", 2), vec![Err(Error::MalformedNumber { position: 0 })]);
}

#[test]
fn malformed_numbers() {
    for text in ["-", "1.", "1e", "1e+", "--1", "1.2.3", "-.5", "1-2"] {
        let input = format!(" {}", text);
        assert_eq!(
            tokenize(input.as_bytes(), 1),
            vec![Err(Error::MalformedNumber { position: 1 })],
            "{}",
            text
        );
    }
}

#[test]
fn end_of_stream_repeats() {
    let mut t = Tokenizer::new();
    assert!(matches!(t.next(), Step::NeedInput));
    t.supply(ReadEvent::Data(b"1 ".to_vec()));
    assert!(matches!(t.next(), Step::Token(JsonToken::Number(_))));
    assert!(matches!(t.next(), Step::NeedInput));
    t.supply(ReadEvent::EndOfStream);
    for _ in 0..5 {
        assert!(matches!(t.next(), Step::End));
    }
    t.supply(ReadEvent::Data(b"[".to_vec()));
    assert!(matches!(t.next(), Step::End));
}

#[test]
fn empty_read_ends_the_stream() {
    let mut t = Tokenizer::new();
    t.supply(ReadEvent::Data(b"12".to_vec()));
    assert!(matches!(t.next(), Step::NeedInput));
    t.supply(ReadEvent::Data(Vec::new()));
    assert!(matches!(t.next(), Step::Token(JsonToken::Number(ref v)) if v == b"12"));
    assert!(matches!(t.next(), Step::End));
}

#[test]
fn interrupted_read_changes_nothing() {
    let mut t = Tokenizer::new();
    t.supply(ReadEvent::Data(b"nu".to_vec()));
    assert!(matches!(t.next(), Step::NeedInput));
    t.supply(ReadEvent::Interrupted);
    assert!(matches!(t.next(), Step::NeedInput));
    t.supply(ReadEvent::Data(b"ll".to_vec()));
    assert!(matches!(t.next(), Step::Token(JsonToken::Null)));
}

#[test]
fn source_failure_is_reported_and_stays() {
    let mut t = Tokenizer::new();
    t.supply(ReadEvent::Data(b"[".to_vec()));
    assert!(matches!(t.next(), Step::Token(JsonToken::BeginArray)));
    t.supply(ReadEvent::Failed);
    assert!(matches!(t.next(), Step::Failed(Error::IoFailure)));
    t.supply(ReadEvent::Data(b"1".to_vec()));
    assert!(matches!(t.next(), Step::Failed(Error::IoFailure)));
}

#[test]
fn unexpected_byte() {
    assert_eq!(tokenize(b"  @", 1), vec![Err(Error::UnexpectedByte { byte: b'@', position: 2 })]);
    assert_eq!(tokenize(b".5", 1), vec![Err(Error::UnexpectedByte { byte: b'.', position: 0 })]);
    assert_eq!(
        tokenize(b"12a", 1),
        vec![num("12"), Err(Error::UnexpectedByte { byte: b'a', position: 2 })]
    );
}

#[test]
fn invalid_literal() {
    assert_eq!(
        tokenize(b"[nul1]", 1),
        vec![
            Ok(JsonToken::BeginArray),
            Err(Error::InvalidLiteral { expected: Literal::Null, found: b'1', position: 4 })
        ]
    );
    assert_eq!(
        tokenize(b"tRue", 4),
        vec![Err(Error::InvalidLiteral { expected: Literal::True, found: b'R', position: 1 })]
    );
}

#[test]
fn invalid_escapes() {
    assert_eq!(
        tokenize(br#""a\x""#, 1),
        vec![Err(Error::InvalidEscape { byte: b'x', position: 3 })]
    );
    assert_eq!(
        tokenize(br#""\u12g4""#, 1),
        vec![Err(Error::InvalidEscape { byte: b'g', position: 5 })]
    );
    assert_eq!(tokenize(br#""\uABcd""#, 1), vec![string(r#"\uABcd"#)]);
}

#[test]
fn unterminated_strings() {
    assert_eq!(tokenize(b" \"abc", 1), vec![Err(Error::UnterminatedString { position: 1 })]);
    assert_eq!(tokenize(b"\"ab\\", 2), vec![Err(Error::UnterminatedString { position: 0 })]);
    assert_eq!(tokenize(b"\"\\u12", 2), vec![Err(Error::UnterminatedString { position: 0 })]);
}

#[test]
fn control_byte_in_string() {
    assert_eq!(
        tokenize(b"\"a\nb\"", 1),
        vec![Err(Error::UnexpectedByte { byte: b'\n', position: 2 })]
    );
}

#[test]
fn long_string_spans_many_segments() {
    let body: String = (0..200).map(|i| (b'a' + (i % 26) as u8) as char).collect();
    let input = format!("[\"{}\",{}]", body, "123456789012345678901234567890");
    for chunk in [1, 3, 4, 5, 17, 1000] {
        assert_eq!(
            tokenize(input.as_bytes(), chunk),
            vec![
                Ok(JsonToken::BeginArray),
                string(&body),
                Ok(JsonToken::Comma),
                num("123456789012345678901234567890"),
                Ok(JsonToken::EndArray),
            ]
        );
    }
}

#[test]
fn non_ascii_string_bytes_are_kept() {
    let input = "\"h\u{e9}llo \u{1F600}\"".as_bytes();
    let expected = string("h\u{e9}llo \u{1F600}");
    for chunk in 1..input.len() {
        assert_eq!(tokenize(input, chunk), vec![expected.clone()]);
    }
}

#[test]
fn number_grammar() {
    for good in ["0", "-0", "7", "10", "-3.25", "1e9", "1E+9", "2.5e-10", "0.0"] {
        assert!(number_is_valid(&good.as_bytes().to_vec()), "{}", good);
    }
    for bad in ["", "-", "00", "01", "1.", ".1", "1e", "1e-", "+1", "1.e5", "1-", "0x1"] {
        assert!(!number_is_valid(&bad.as_bytes().to_vec()), "{}", bad);
    }
}

#[test]
fn default_options() {
    let o = Options::default();
    assert_eq!(o.ring_capacity, 64);
    assert_eq!(o.buffer_size, 4);
}

#[test]
fn buffer_recycles_and_keeps_bytes() {
    let mut b = Buffer::with_options(&Options { ring_capacity: 2, buffer_size: 3 });
    assert!(!b.has_unread());
    b.write(b"abcdefgh");
    let start = b.start();
    let mut p = start;
    for _ in 0..7 {
        p = b.after(p);
    }
    assert_eq!(b.byte_at(p), b'h');
    assert_eq!(b.copy_span(start, p), b"abcdefg".to_vec());
    b.consume_to(p);
    assert!(b.has_unread());
    b.write(b"ijklmnop");
    let start = b.start();
    let mut end = start;
    while !b.at_end(end) {
        end = b.after(end);
    }
    assert_eq!(b.copy_span(start, end), b"hijklmnop".to_vec());
    b.consume_to(end);
    assert!(!b.has_unread());
    let d = Buffer::default();
    assert!(!d.has_unread());
}
