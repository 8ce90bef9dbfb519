use mnemo::command::{dispatch, reply_named};
use mnemo::resp::parser::RespTypes;

/// Builds the frame a real client would send: an array of bulk strings.
fn command(parts: &[&str]) -> RespTypes {
    RespTypes::Array(Some(
        parts
            .iter()
            .map(|p| RespTypes::BulkString(Some(p.as_bytes().to_vec())))
            .collect(),
    ))
}

fn bulk(s: &str) -> RespTypes {
    RespTypes::BulkString(Some(s.as_bytes().to_vec()))
}

#[test]
fn command_ping_with_no_arguments_replies_pong() {
    assert_eq!(
        dispatch(command(&["PING"])),
        RespTypes::SimpleString("PONG".to_string())
    );
}

#[test]
fn command_ping_with_one_argument_replies_with_that_argument() {
    assert_eq!(dispatch(command(&["PING", "hello"])), bulk("hello"));
}

#[test]
fn command_echo_replies_with_its_argument() {
    assert_eq!(dispatch(command(&["ECHO", "hello"])), bulk("hello"));
}

#[test]
fn command_command_names_are_case_insensitive() {
    assert_eq!(
        dispatch(command(&["ping"])),
        RespTypes::SimpleString("PONG".to_string())
    );
    assert_eq!(dispatch(command(&["EcHo", "hi"])), bulk("hi"));
}

#[test]
fn command_echo_without_an_argument_is_an_error() {
    assert!(matches!(dispatch(command(&["ECHO"])), RespTypes::Error(_)));
}

#[test]
fn command_echo_with_too_many_arguments_is_an_error() {
    assert!(matches!(
        dispatch(command(&["ECHO", "a", "b"])),
        RespTypes::Error(_)
    ));
}

#[test]
fn command_unknown_command_names_the_command_it_did_not_know() {
    match dispatch(command(&["SET", "a", "b"])) {
        RespTypes::Error(msg) => assert!(msg.contains("SET"), "got: {msg}"),
        other => panic!("expected an error, got {other:?}"),
    }
}

#[test]
fn command_an_empty_array_is_an_error_not_a_panic() {
    assert!(matches!(
        dispatch(RespTypes::Array(Some(vec![]))),
        RespTypes::Error(_)
    ));
}

#[test]
fn command_frames_that_are_not_arrays_are_errors() {
    assert!(matches!(
        dispatch(RespTypes::SimpleString("PING".to_string())),
        RespTypes::Error(_)
    ));
    assert!(matches!(
        dispatch(RespTypes::Array(None)),
        RespTypes::Error(_)
    ));
}

#[test]
fn command_a_command_name_that_is_not_valid_utf8_is_an_error() {
    let frame = RespTypes::Array(Some(vec![RespTypes::BulkString(Some(vec![0xff, 0xfe]))]));
    assert!(matches!(dispatch(frame), RespTypes::Error(_)));
}

// --- exact replies -----------------------------------------------------

#[test]
fn stateless_errors_have_their_exact_wording() {
    assert_eq!(
        dispatch(RespTypes::Array(Some(vec![]))),
        RespTypes::Error("Empty".to_string())
    );
    assert_eq!(
        dispatch(RespTypes::Integer(1)),
        RespTypes::Error("Resp always sends array as input".to_string())
    );
    assert_eq!(
        dispatch(command(&["PING", "a", "b"])),
        RespTypes::Error("wrong number of arguments for 'ping' command".to_string())
    );
    assert_eq!(
        dispatch(command(&["echo"])),
        RespTypes::Error("wrong number of arguments for 'echo' command".to_string())
    );
    assert_eq!(
        dispatch(command(&["flurb"])),
        RespTypes::Error("unknown command 'FLURB'".to_string())
    );
}

#[test]
fn stateless_first_bad_element_decides_the_error() {
    // A bad argument is reported even after a valid name; the first bad
    // element decides which complaint is made.
    let frame = RespTypes::Array(Some(vec![
        RespTypes::BulkString(Some(b"ECHO".to_vec())),
        RespTypes::BulkString(Some(vec![0xff])),
        RespTypes::Integer(3),
    ]));
    assert_eq!(
        dispatch(frame),
        RespTypes::Error("Command names and arguments must be valid UTF-8".to_string())
    );
    let frame = RespTypes::Array(Some(vec![
        RespTypes::BulkString(Some(b"ECHO".to_vec())),
        RespTypes::BulkString(None),
        RespTypes::BulkString(Some(vec![0xff])),
    ]));
    assert_eq!(
        dispatch(frame),
        RespTypes::Error("Every element must be a bulk string".to_string())
    );
}

#[test]
fn stateless_echo_keeps_multibyte_text() {
    assert_eq!(dispatch(command(&["ECHO", "héllo ✓"])), bulk("héllo ✓"));
}

#[test]
fn stateless_reply_named_answers_by_upper_case_name() {
    assert_eq!(
        reply_named("PING", &vec![]),
        RespTypes::SimpleString("PONG".to_string())
    );
    assert_eq!(reply_named("ECHO", &vec!["x".to_string()]), bulk("x"));
    assert_eq!(
        reply_named("ping", &vec![]),
        RespTypes::Error("unknown command 'ping'".to_string())
    );
}
