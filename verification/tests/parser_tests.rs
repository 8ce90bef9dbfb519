use mnemo::resp::encoder::encode;
use mnemo::resp::parser::{
    parse, parse_argument, parse_bulk_string, parse_command, parse_inline, parse_multibulk, read_line,
    ParseError, RespTypes,
};

// --- read_line ---------------------------------------------------------

#[test]
fn read_line_returns_the_line_and_moves_past_crlf() {
    let mut pos = 0;
    assert_eq!(read_line(b"+OK\r\n", &mut pos), Ok(&b"+OK"[..]));
    assert_eq!(pos, 5);
}

#[test]
fn read_line_handles_an_empty_line() {
    let mut pos = 0;
    assert_eq!(read_line(b"\r\n", &mut pos), Ok(&b""[..]));
    assert_eq!(pos, 2);
}

#[test]
fn read_line_on_empty_buffer_does_not_panic() {
    let mut pos = 0;
    assert_eq!(read_line(b"", &mut pos), Err(ParseError::Incomplete));
}

#[test]
fn read_line_without_crlf_is_incomplete() {
    let mut pos = 0;
    assert_eq!(read_line(b"+OK", &mut pos), Err(ParseError::Incomplete));
    assert_eq!(pos, 0);
}

#[test]
fn read_line_with_cr_but_no_lf_yet_is_incomplete() {
    let mut pos = 0;
    assert_eq!(read_line(b"+OK\r", &mut pos), Err(ParseError::Incomplete));
}

#[test]
fn read_line_rejects_a_lone_cr() {
    let mut pos = 0;
    assert!(matches!(
        read_line(b"+O\rK\r\n", &mut pos),
        Err(ParseError::Protocol(_))
    ));
}

// --- the three one-line types -----------------------------------------

#[test]
fn parses_a_simple_string() {
    let mut pos = 0;
    assert_eq!(
        parse(b"+OK\r\n", &mut pos),
        Ok(RespTypes::SimpleString("OK".to_string()))
    );
    assert_eq!(pos, 5);
}

#[test]
fn parses_an_empty_simple_string() {
    let mut pos = 0;
    assert_eq!(
        parse(b"+\r\n", &mut pos),
        Ok(RespTypes::SimpleString(String::new()))
    );
}

#[test]
fn parses_an_error() {
    let mut pos = 0;
    assert_eq!(
        parse(b"-ERR unknown command\r\n", &mut pos),
        Ok(RespTypes::Error("ERR unknown command".to_string()))
    );
}

#[test]
fn parses_an_integer() {
    let mut pos = 0;
    assert_eq!(parse(b":42\r\n", &mut pos), Ok(RespTypes::Integer(42)));
    assert_eq!(pos, 5);
}

#[test]
fn parses_a_negative_integer() {
    let mut pos = 0;
    assert_eq!(parse(b":-1\r\n", &mut pos), Ok(RespTypes::Integer(-1)));
}

#[test]
fn integer_that_is_not_a_number_is_a_protocol_error() {
    let mut pos = 0;
    assert!(matches!(
        parse(b":abc\r\n", &mut pos),
        Err(ParseError::Protocol(_))
    ));
}

// --- bulk strings ------------------------------------------------------

#[test]
fn parses_a_bulk_string() {
    let mut pos = 0;
    assert_eq!(
        parse(b"$5\r\nhello\r\n", &mut pos),
        Ok(RespTypes::BulkString(Some(b"hello".to_vec())))
    );
    assert_eq!(pos, 11);
}

#[test]
fn parses_an_empty_bulk_string() {
    let mut pos = 0;
    assert_eq!(
        parse(b"$0\r\n\r\n", &mut pos),
        Ok(RespTypes::BulkString(Some(vec![])))
    );
    assert_eq!(pos, 6);
}

#[test]
fn parses_a_null_bulk_string() {
    let mut pos = 0;
    assert_eq!(parse(b"$-1\r\n", &mut pos), Ok(RespTypes::BulkString(None)));
    assert_eq!(pos, 5);
}

#[test]
fn bulk_string_payload_may_contain_crlf() {
    let mut pos = 0;
    assert_eq!(
        parse(b"$5\r\na\r\nbc\r\n", &mut pos),
        Ok(RespTypes::BulkString(Some(b"a\r\nbc".to_vec())))
    );
}

#[test]
fn bulk_string_payload_may_be_binary() {
    let mut pos = 0;
    assert_eq!(
        parse(b"$3\r\n\xff\x00\xfe\r\n", &mut pos),
        Ok(RespTypes::BulkString(Some(vec![0xff, 0x00, 0xfe])))
    );
}

#[test]
fn half_delivered_bulk_string_is_incomplete_not_a_panic() {
    let mut pos = 0;
    assert_eq!(parse(b"$5\r\nhel", &mut pos), Err(ParseError::Incomplete));
    assert_eq!(pos, 0);
}

#[test]
fn bulk_string_missing_its_trailing_crlf_is_a_protocol_error() {
    let mut pos = 0;
    assert!(matches!(
        parse(b"$5\r\nhelloXX", &mut pos),
        Err(ParseError::Protocol(_))
    ));
}

#[test]
fn bulk_string_with_only_one_bad_terminator_byte_is_rejected() {
    let mut pos = 0;
    assert!(matches!(
        parse(b"$5\r\nhelloX\n", &mut pos),
        Err(ParseError::Protocol(_))
    ));

    let mut pos = 0;
    assert!(matches!(
        parse(b"$5\r\nhello\rX", &mut pos),
        Err(ParseError::Protocol(_))
    ));
}

#[test]
fn negative_bulk_length_other_than_minus_one_is_a_protocol_error() {
    let mut pos = 0;
    assert!(matches!(
        parse(b"$-2\r\nab\r\n", &mut pos),
        Err(ParseError::Protocol(_))
    ));
}

#[test]
fn reads_two_bulk_strings_from_one_buffer() {
    let buf = b"$4\r\nECHO\r\n$5\r\nhello\r\n";
    let mut pos = 0;

    assert_eq!(
        parse(buf, &mut pos),
        Ok(RespTypes::BulkString(Some(b"ECHO".to_vec())))
    );
    assert_eq!(
        parse(buf, &mut pos),
        Ok(RespTypes::BulkString(Some(b"hello".to_vec())))
    );
    assert_eq!(pos, buf.len());
}

// --- arrays ------------------------------------------------------------

#[test]
fn parses_a_command_array() {
    let buf = b"*2\r\n$4\r\nECHO\r\n$5\r\nhello\r\n";
    let mut pos = 0;
    assert_eq!(
        parse(buf, &mut pos),
        Ok(RespTypes::Array(Some(vec![
            RespTypes::BulkString(Some(b"ECHO".to_vec())),
            RespTypes::BulkString(Some(b"hello".to_vec())),
        ])))
    );
    assert_eq!(pos, buf.len());
}

#[test]
fn parses_an_empty_array() {
    let mut pos = 0;
    assert_eq!(
        parse(b"*0\r\n", &mut pos),
        Ok(RespTypes::Array(Some(vec![])))
    );
    assert_eq!(pos, 4);
}

#[test]
fn parses_a_null_array() {
    let mut pos = 0;
    assert_eq!(parse(b"*-1\r\n", &mut pos), Ok(RespTypes::Array(None)));
    assert_eq!(pos, 5);
}

#[test]
fn parses_a_nested_array() {
    let mut pos = 0;
    assert_eq!(
        parse(b"*1\r\n*2\r\n:5\r\n+OK\r\n", &mut pos),
        Ok(RespTypes::Array(Some(vec![RespTypes::Array(Some(vec![
            RespTypes::Integer(5),
            RespTypes::SimpleString("OK".to_string()),
        ]))])))
    );
}

#[test]
fn parses_an_array_of_mixed_types() {
    let mut pos = 0;
    assert_eq!(
        parse(b"*3\r\n:1\r\n$2\r\nhi\r\n-ERR x\r\n", &mut pos),
        Ok(RespTypes::Array(Some(vec![
            RespTypes::Integer(1),
            RespTypes::BulkString(Some(b"hi".to_vec())),
            RespTypes::Error("ERR x".to_string()),
        ])))
    );
}

#[test]
fn half_delivered_array_rewinds_the_cursor() {
    let mut pos = 0;
    assert_eq!(
        parse(b"*2\r\n:1\r\n", &mut pos),
        Err(ParseError::Incomplete)
    );
    assert_eq!(pos, 0);
}

#[test]
fn array_element_that_is_garbage_is_a_protocol_error() {
    let mut pos = 0;
    assert!(matches!(
        parse(b"*1\r\n?bad\r\n", &mut pos),
        Err(ParseError::Protocol(_))
    ));
}

#[test]
fn absurd_array_count_does_not_allocate() {
    let mut pos = 0;
    assert_eq!(
        parse(b"*999999999\r\n", &mut pos),
        Err(ParseError::Incomplete)
    );
    assert_eq!(pos, 0);
}

// --- parse dispatch ----------------------------------------------------

#[test]
fn unknown_marker_is_a_protocol_error() {
    let mut pos = 0;
    assert!(matches!(
        parse(b"?what\r\n", &mut pos),
        Err(ParseError::Protocol(_))
    ));
}

#[test]
fn empty_buffer_is_incomplete() {
    let mut pos = 0;
    assert_eq!(parse(b"", &mut pos), Err(ParseError::Incomplete));
}

#[test]
fn cursor_at_end_of_a_full_buffer_is_incomplete() {
    let mut pos = 5;
    assert_eq!(parse(b"+OK\r\n", &mut pos), Err(ParseError::Incomplete));
}

#[test]
fn reads_two_frames_from_one_buffer() {
    let buf = b"+OK\r\n:42\r\n";
    let mut pos = 0;

    assert_eq!(
        parse(buf, &mut pos),
        Ok(RespTypes::SimpleString("OK".to_string()))
    );
    assert_eq!(parse(buf, &mut pos), Ok(RespTypes::Integer(42)));
    assert_eq!(pos, buf.len());
}

// --- exact errors, integers, and where the cursor stands ----------------

fn protocol(s: &str) -> ParseError {
    ParseError::Protocol(s.to_string())
}

#[test]
fn every_protocol_error_has_its_exact_wording() {
    let cases: Vec<(&[u8], &str)> = vec![
        (b"+O\rK\r\n", "expected \\n after \\r"),
        (b"?x\r\n", "unknown RESP type"),
        (b"+\xff\r\n", "invalid UTF-8"),
        (b":1x\r\n", "invalid number parsing error"),
        (b"$abc\r\n", "invalid bulk length"),
        (b"$18446744073709551615\r\n", "bulk length too large"),
        (b"$1\r\naXY", "bulk string not terminated by CRLF"),
        (b"*x\r\n", "invalid array length"),
        (b"*\xff\r\n", "invalid UTF-8"),
    ];
    for (buf, message) in cases {
        let mut pos = 0;
        assert_eq!(parse(buf, &mut pos), Err(protocol(message)), "{buf:?}");
    }
}

#[test]
fn integers_cover_the_whole_i64_range_and_no_more() {
    let mut pos = 0;
    assert_eq!(
        parse(b":-9223372036854775808\r\n", &mut pos),
        Ok(RespTypes::Integer(i64::MIN))
    );
    let mut pos = 0;
    assert_eq!(
        parse(b":9223372036854775807\r\n", &mut pos),
        Ok(RespTypes::Integer(i64::MAX))
    );
    let mut pos = 0;
    assert_eq!(
        parse(b":9223372036854775808\r\n", &mut pos),
        Err(protocol("invalid number parsing error"))
    );
    let mut pos = 0;
    assert_eq!(parse(b":+7\r\n", &mut pos), Ok(RespTypes::Integer(7)));
    for bad in [&b":\r\n"[..], b":-\r\n", b":+\r\n", b": 1\r\n", b":1_0\r\n"] {
        let mut pos = 0;
        assert_eq!(
            parse(bad, &mut pos),
            Err(protocol("invalid number parsing error"))
        );
    }
}

#[test]
fn a_protocol_error_after_a_line_leaves_the_cursor_past_the_line() {
    let mut pos = 0;
    assert!(parse(b":abc\r\n:1\r\n", &mut pos).is_err());
    assert_eq!(pos, 6);
}

#[test]
fn a_bad_array_element_rewinds_the_cursor() {
    let mut pos = 0;
    assert!(parse(b"*2\r\n:1\r\n?\r\n", &mut pos).is_err());
    assert_eq!(pos, 0);
}

// --- commands ----------------------------------------------------------

fn bulk(s: &str) -> RespTypes {
    RespTypes::BulkString(Some(s.as_bytes().to_vec()))
}

#[test]
fn an_inline_command_is_split_into_bulk_strings() {
    let buf = b"SET  foo bar \r\n";
    let mut pos = 0;
    assert_eq!(
        parse_command(buf, &mut pos),
        Ok(RespTypes::Array(Some(vec![bulk("SET"), bulk("foo"), bulk("bar")])))
    );
    assert_eq!(pos, buf.len());
}

#[test]
fn a_blank_line_is_skipped() {
    let buf = b"\r\n   \r\nPING\r\n";
    let mut pos = 0;
    assert_eq!(
        parse_command(buf, &mut pos),
        Ok(RespTypes::Array(Some(vec![bulk("PING")])))
    );
    assert_eq!(pos, buf.len());
}

#[test]
fn a_command_array_reads_the_same_through_parse_command() {
    let buf = b"*1\r\n$4\r\nPING\r\n";
    let mut a = 0;
    let mut b = 0;
    assert_eq!(parse_command(buf, &mut a), parse(buf, &mut b));
    assert_eq!(a, b);
    let mut pos = 0;
    assert_eq!(parse_command(b"", &mut pos), Err(ParseError::Incomplete));
}

// --- writing frames ----------------------------------------------------

#[test]
fn encodes_each_type() {
    assert_eq!(encode(&RespTypes::SimpleString("OK".to_string())), b"+OK\r\n");
    assert_eq!(encode(&RespTypes::Error("ERR x".to_string())), b"-ERR x\r\n");
    assert_eq!(encode(&RespTypes::Integer(-42)), b":-42\r\n");
    assert_eq!(
        encode(&RespTypes::Integer(i64::MIN)),
        b":-9223372036854775808\r\n"
    );
    assert_eq!(encode(&RespTypes::Integer(0)), b":0\r\n");
    assert_eq!(encode(&bulk("hello")), b"$5\r\nhello\r\n");
    assert_eq!(encode(&RespTypes::BulkString(None)), b"$-1\r\n");
    assert_eq!(encode(&RespTypes::Array(None)), b"*-1\r\n");
    assert_eq!(
        encode(&RespTypes::Array(Some(vec![bulk("a"), RespTypes::Integer(10)]))),
        b"*2\r\n$1\r\na\r\n:10\r\n"
    );
    assert_eq!(encode(&RespTypes::SimpleString("é".to_string())), "+é\r\n".as_bytes());
}

#[test]
fn what_is_encoded_parses_back() {
    let values = vec![
        RespTypes::SimpleString("PONG".to_string()),
        RespTypes::Error("ERR wrong\ntype".to_string()),
        RespTypes::Integer(i64::MAX),
        RespTypes::BulkString(Some(b"a\r\nb".to_vec())),
        RespTypes::BulkString(None),
        RespTypes::Array(None),
        RespTypes::Array(Some(vec![
            RespTypes::Array(Some(vec![])),
            bulk(""),
            RespTypes::Integer(-3),
        ])),
    ];
    let mut stream = Vec::new();
    for v in &values {
        stream.extend_from_slice(&encode(v));
    }
    let mut pos = 0;
    for v in values {
        assert_eq!(parse(&stream, &mut pos), Ok(v));
    }
    assert_eq!(pos, stream.len());
}

#[test]
fn appending_bytes_does_not_change_a_finished_reading() {
    let full = b"*2\r\n:1\r\n$3\r\nabc\r\n";
    for cut in 0..full.len() {
        let mut pos = 0;
        let partial = parse(&full[..cut], &mut pos);
        assert_eq!(partial, Err(ParseError::Incomplete), "cut at {cut}");
        assert_eq!(pos, 0);
    }
    let mut pos = 0;
    let mut longer = full.to_vec();
    longer.extend_from_slice(b"+more");
    assert_eq!(
        parse(&longer, &mut pos),
        Ok(RespTypes::Array(Some(vec![RespTypes::Integer(1), bulk("abc")])))
    );
    assert_eq!(pos, full.len());
}

#[test]
fn inline_and_array_forms_read_the_same() {
    let mut a = 0;
    let mut b = 0;
    let inline = parse_command(b"ECHO hello\r\n", &mut a);
    let array = parse_command(b"*2\r\n$4\r\nECHO\r\n$5\r\nhello\r\n", &mut b);
    assert_eq!(inline, array);
    assert!(inline.is_ok());
}

#[test]
fn a_command_resumes_after_skipped_blank_lines() {
    let full = b"\r\n*1\r\n$4\r\nPING\r\n";
    let mut pos = 0;
    assert_eq!(parse_command(&full[..10], &mut pos), Err(ParseError::Incomplete));
    assert_eq!(pos, 2);
    assert_eq!(
        parse_command(full, &mut pos),
        Ok(RespTypes::Array(Some(vec![bulk("PING")])))
    );
    assert_eq!(pos, full.len());
}

// --- the command grammar ---------------------------------------------------

fn command_of(buf: &[u8]) -> (Result<RespTypes, ParseError>, usize) {
    let mut pos = 0;
    let r = parse_command(buf, &mut pos);
    (r, pos)
}

#[test]
fn a_negative_count_is_skipped_and_a_zero_count_is_an_empty_command() {
    let buf = b"*-10\r\n*1\r\n$4\r\nPING\r\n";
    assert_eq!(command_of(buf), (Ok(RespTypes::Array(Some(vec![bulk("PING")]))), buf.len()));
    assert_eq!(command_of(b"*0\r\n"), (Ok(RespTypes::Array(Some(vec![]))), 4));
    assert_eq!(command_of(b"*-1\r\n*0\r\n"), (Ok(RespTypes::Array(Some(vec![]))), 9));
    assert_eq!(command_of(b"*-1\r\n"), (Err(ParseError::Incomplete), 5));
}

#[test]
fn a_count_that_is_too_large_or_not_a_number_is_refused() {
    assert_eq!(
        command_of(b"*3000000000\r\n"),
        (Err(protocol("invalid multibulk length")), 13)
    );
    assert_eq!(command_of(b"*1048577\r\n"), (Err(protocol("invalid multibulk length")), 10));
    assert_eq!(command_of(b"*1048576\r\n"), (Err(ParseError::Incomplete), 0));
    assert_eq!(command_of(b"*abc\r\n"), (Err(protocol("invalid multibulk length")), 6));
    assert_eq!(command_of(b"*\r\n"), (Err(protocol("invalid multibulk length")), 3));
}

#[test]
fn every_argument_must_start_with_a_dollar() {
    assert_eq!(command_of(b"*1\r\nfoo\r\n"), (Err(protocol("expected '$', got 'f'")), 0));
    assert_eq!(command_of(b"*1\r\n:1\r\n"), (Err(protocol("expected '$', got ':'")), 0));
    assert_eq!(
        command_of(b"*2\r\n$4\r\nECHO\r\n*1\r\n"),
        (Err(protocol("expected '$', got '*'")), 0)
    );
}

#[test]
fn an_element_that_is_not_a_dollar_is_refused_before_its_line_ends() {
    assert_eq!(command_of(b"*1\r\nf"), (Err(protocol("expected '$', got 'f'")), 0));
    assert_eq!(command_of(b"*1\r\nfoo"), (Err(protocol("expected '$', got 'f'")), 0));
    assert_eq!(command_of(b"*1\r\n$"), (Err(ParseError::Incomplete), 0));
}

#[test]
fn an_argument_length_must_be_from_zero_to_512mb() {
    assert_eq!(command_of(b"*1\r\n$-1\r\n"), (Err(protocol("invalid bulk length")), 0));
    assert_eq!(command_of(b"*1\r\n$536870913\r\n"), (Err(protocol("invalid bulk length")), 0));
    assert_eq!(command_of(b"*1\r\n$536870912\r\n"), (Err(ParseError::Incomplete), 0));
    assert_eq!(command_of(b"*1\r\n$x\r\n"), (Err(protocol("invalid bulk length")), 0));
    assert_eq!(
        command_of(b"*1\r\n$0\r\n\r\n"),
        (Ok(RespTypes::Array(Some(vec![bulk("")]))), 10)
    );
    assert_eq!(
        command_of(b"*1\r\n$2\r\nhiXY"),
        (Err(protocol("bulk string not terminated by CRLF")), 0)
    );
}

#[test]
fn an_unterminated_line_past_64kb_is_refused() {
    let mut count_line = vec![b'*'];
    count_line.extend(vec![b'A'; 65535]);
    assert_eq!(command_of(&count_line), (Err(ParseError::Incomplete), 0));
    count_line.push(b'A');
    assert_eq!(command_of(&count_line), (Err(protocol("too big mbulk count string")), 0));

    let mut length_line = b"*1\r\n$".to_vec();
    length_line.extend(vec![b'A'; 70000]);
    assert_eq!(command_of(&length_line), (Err(protocol("too big bulk count string")), 0));

    let mut inline = vec![0u8];
    inline.extend(vec![b'A'; 70000]);
    assert_eq!(command_of(&inline), (Err(protocol("too big inline request")), 0));
}

#[test]
fn inline_arguments_are_split_as_a_shell_would() {
    let buf = b"SET \"a b\" 'c d'\r\n";
    assert_eq!(
        command_of(buf),
        (Ok(RespTypes::Array(Some(vec![bulk("SET"), bulk("a b"), bulk("c d")]))), buf.len())
    );
    let buf = b"ECHO \"x\\ny\\x41\\\"\"\r\n";
    assert_eq!(
        command_of(buf),
        (Ok(RespTypes::Array(Some(vec![bulk("ECHO"), bulk("x\nyA\"")]))), buf.len())
    );
    let buf = b"ECHO 'it\\'s'\r\n";
    assert_eq!(
        command_of(buf),
        (Ok(RespTypes::Array(Some(vec![bulk("ECHO"), bulk("it's")]))), buf.len())
    );
    let buf = b"ECHO \"\"\r\n";
    assert_eq!(
        command_of(buf),
        (Ok(RespTypes::Array(Some(vec![bulk("ECHO"), bulk("")]))), buf.len())
    );
}

#[test]
fn inline_arguments_are_split_at_spaces_only() {
    let buf = b"ECHO\thi\r\n";
    assert_eq!(command_of(buf), (Ok(RespTypes::Array(Some(vec![bulk("ECHO\thi")]))), buf.len()));
    let buf = b"ECHO a\tb \x0bc\x0c\r\n";
    assert_eq!(
        command_of(buf),
        (Ok(RespTypes::Array(Some(vec![bulk("ECHO"), bulk("a\tb"), bulk("\x0bc\x0c")]))), buf.len())
    );
    let buf = b"ECHO \"a\"\tb\r\n";
    assert_eq!(command_of(buf), (Err(protocol("unbalanced quotes in request")), buf.len()));
}

#[test]
fn an_unclosed_or_glued_quote_is_unbalanced() {
    let buf = b"set \"\"\"test-key\"\"\" test-value\r\n";
    assert_eq!(
        command_of(buf),
        (Err(protocol("unbalanced quotes in request")), buf.len())
    );
    let buf = b"ECHO \"a\"b\r\n";
    assert_eq!(
        command_of(buf),
        (Err(protocol("unbalanced quotes in request")), buf.len())
    );
    let buf = b"ECHO 'open\r\n";
    assert_eq!(
        command_of(buf),
        (Err(protocol("unbalanced quotes in request")), buf.len())
    );
}

#[test]
fn every_cut_of_a_command_is_incomplete_and_keeps_the_cursor() {
    let full = b"*2\r\n$4\r\nECHO\r\n$2\r\nhi\r\n";
    for cut in 0..full.len() {
        assert_eq!(command_of(&full[..cut]), (Err(ParseError::Incomplete), 0), "cut at {cut}");
    }
    assert_eq!(
        command_of(full),
        (Ok(RespTypes::Array(Some(vec![bulk("ECHO"), bulk("hi")]))), full.len())
    );
}

#[test]
fn a_refused_command_stays_refused_when_more_bytes_arrive() {
    let bad = b"*1\r\nfoo\r\n".to_vec();
    let mut longer = bad.clone();
    longer.extend_from_slice(b"*1\r\n$4\r\nPING\r\n");
    assert_eq!(command_of(&bad), command_of(&longer));
}

#[test]
fn every_cut_of_an_encoded_frame_is_incomplete() {
    let frame = RespTypes::Array(Some(vec![
        RespTypes::SimpleString("OK".to_string()),
        RespTypes::Integer(-7),
        RespTypes::BulkString(None),
        RespTypes::Array(Some(vec![bulk("x")])),
    ]));
    let bytes = encode(&frame);
    for cut in 0..bytes.len() {
        let mut pos = 0;
        assert_eq!(parse(&bytes[..cut], &mut pos), Err(ParseError::Incomplete), "cut at {cut}");
        assert_eq!(pos, 0);
    }
}

#[test]
fn the_readers_can_be_called_one_by_one() {
    let mut pos = 0;
    assert_eq!(parse_bulk_string(b"$3\r\nabc\r\n", &mut pos), Ok(bulk("abc")));
    assert_eq!(pos, 9);
    let mut pos = 0;
    assert_eq!(parse_argument(b"$2\r\nhi\r\n", &mut pos), Ok(b"hi".to_vec()));
    assert_eq!(pos, 8);
    let mut pos = 0;
    assert_eq!(
        parse_multibulk(b"*1\r\n$4\r\nPING\r\n", &mut pos),
        Ok(RespTypes::Array(Some(vec![bulk("PING")])))
    );
    assert_eq!(pos, 14);
    let mut pos = 0;
    assert_eq!(
        parse_inline(b"GET k\r\n", &mut pos),
        Ok(RespTypes::Array(Some(vec![bulk("GET"), bulk("k")])))
    );
    assert_eq!(pos, 7);
}
