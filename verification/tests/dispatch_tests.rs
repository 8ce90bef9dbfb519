use mnemo::dispatch::{dispatch, execute};
use mnemo::resp::parser::RespTypes;
use mnemo::store::db::Db;

/// Builds the frame a real client would send: an array of bulk strings.
fn command(parts: &[&str]) -> RespTypes {
    RespTypes::Array(Some(
        parts
            .iter()
            .map(|p| RespTypes::BulkString(Some(p.as_bytes().to_vec())))
            .collect(),
    ))
}

fn bulk(s: &str) -> RespTypes {
    RespTypes::BulkString(Some(s.as_bytes().to_vec()))
}

fn ok() -> RespTypes {
    RespTypes::SimpleString("OK".to_string())
}

fn error(s: &str) -> RespTypes {
    RespTypes::Error(s.to_string())
}

/// Runs a command against a throwaway store, for the cases where state does
/// not matter.
fn run(parts: &[&str]) -> RespTypes {
    dispatch(command(parts), &mut Db::default())
}

// --- PING / ECHO -----------------------------------------------------------

#[test]
fn command_tests_ping_with_no_arguments_replies_pong() {
    assert_eq!(run(&["PING"]), RespTypes::SimpleString("PONG".to_string()));
}

#[test]
fn command_tests_ping_with_one_argument_replies_with_that_argument() {
    assert_eq!(run(&["PING", "hello"]), bulk("hello"));
}

#[test]
fn command_tests_echo_replies_with_its_argument() {
    assert_eq!(run(&["ECHO", "hello"]), bulk("hello"));
}

#[test]
fn command_tests_command_names_are_case_insensitive() {
    assert_eq!(run(&["ping"]), RespTypes::SimpleString("PONG".to_string()));
    assert_eq!(run(&["EcHo", "hi"]), bulk("hi"));
}

#[test]
fn command_tests_echo_without_an_argument_is_an_error() {
    assert!(matches!(run(&["ECHO"]), RespTypes::Error(_)));
}

#[test]
fn command_tests_echo_with_too_many_arguments_is_an_error() {
    assert!(matches!(run(&["ECHO", "a", "b"]), RespTypes::Error(_)));
}

// --- SET / GET -------------------------------------------------------------

#[test]
fn set_then_get_returns_the_value() {
    let mut db = Db::default();
    assert_eq!(dispatch(command(&["SET", "k", "v"]), &mut db), ok());
    assert_eq!(dispatch(command(&["GET", "k"]), &mut db), bulk("v"));
}

#[test]
fn set_over_an_existing_key_replies_ok_and_replaces_the_value() {
    let mut db = Db::default();
    dispatch(command(&["SET", "k", "one"]), &mut db);
    assert_eq!(dispatch(command(&["SET", "k", "two"]), &mut db), ok());
    assert_eq!(dispatch(command(&["GET", "k"]), &mut db), bulk("two"));
}

#[test]
fn get_on_a_missing_key_is_the_null_bulk_string() {
    assert_eq!(run(&["GET", "nope"]), RespTypes::BulkString(None));
}

#[test]
fn an_empty_value_is_stored_and_returned() {
    let mut db = Db::default();
    assert_eq!(dispatch(command(&["SET", "k", ""]), &mut db), ok());
    assert_eq!(dispatch(command(&["GET", "k"]), &mut db), bulk(""));
}

#[test]
fn values_may_be_arbitrary_bytes() {
    let mut db = Db::default();
    let value = vec![0xff, 0x00, 0xfe];
    let set = RespTypes::Array(Some(vec![
        RespTypes::BulkString(Some(b"SET".to_vec())),
        RespTypes::BulkString(Some(b"blob".to_vec())),
        RespTypes::BulkString(Some(value.clone())),
    ]));
    assert_eq!(dispatch(set, &mut db), ok());
    assert_eq!(
        dispatch(command(&["GET", "blob"]), &mut db),
        RespTypes::BulkString(Some(value))
    );
}

#[test]
fn set_and_get_check_their_argument_count() {
    assert!(matches!(run(&["SET", "k"]), RespTypes::Error(_)));
    assert!(matches!(run(&["SET", "k", "v", "extra"]), RespTypes::Error(_)));
    assert!(matches!(run(&["GET"]), RespTypes::Error(_)));
    assert!(matches!(run(&["GET", "a", "b"]), RespTypes::Error(_)));
}

// --- DEL / EXISTS / TYPE ---------------------------------------------------

#[test]
fn del_reports_how_many_keys_it_removed() {
    let mut db = Db::default();
    dispatch(command(&["SET", "a", "1"]), &mut db);
    dispatch(command(&["SET", "b", "2"]), &mut db);
    assert_eq!(
        dispatch(command(&["DEL", "a", "b", "missing"]), &mut db),
        RespTypes::Integer(2)
    );
    assert_eq!(dispatch(command(&["GET", "a"]), &mut db), RespTypes::BulkString(None));
}

#[test]
fn del_on_a_missing_key_is_zero_not_an_error() {
    assert_eq!(run(&["DEL", "nope"]), RespTypes::Integer(0));
}

#[test]
fn exists_counts_the_keys_that_are_there() {
    let mut db = Db::default();
    dispatch(command(&["SET", "a", "1"]), &mut db);
    assert_eq!(
        dispatch(command(&["EXISTS", "a", "missing"]), &mut db),
        RespTypes::Integer(1)
    );
    assert_eq!(
        dispatch(command(&["EXISTS", "a", "a"]), &mut db),
        RespTypes::Integer(2)
    );
}

#[test]
fn type_names_the_kind_of_value_and_says_none_when_missing() {
    let mut db = Db::default();
    dispatch(command(&["SET", "k", "v"]), &mut db);
    assert_eq!(
        dispatch(command(&["TYPE", "k"]), &mut db),
        RespTypes::SimpleString("string".to_string())
    );
    assert_eq!(
        dispatch(command(&["TYPE", "missing"]), &mut db),
        RespTypes::SimpleString("none".to_string())
    );
}

// --- malformed input -------------------------------------------------------

#[test]
fn command_tests_unknown_command_names_the_command_it_did_not_know() {
    match run(&["FLURB", "a"]) {
        RespTypes::Error(msg) => assert!(msg.contains("FLURB"), "got: {msg}"),
        other => panic!("expected an error, got {other:?}"),
    }
}

#[test]
fn command_tests_an_empty_array_is_an_error_not_a_panic() {
    assert!(matches!(
        dispatch(RespTypes::Array(Some(vec![])), &mut Db::default()),
        RespTypes::Error(_)
    ));
}

#[test]
fn command_tests_frames_that_are_not_arrays_are_errors() {
    let mut db = Db::default();
    assert!(matches!(
        dispatch(RespTypes::SimpleString("PING".to_string()), &mut db),
        RespTypes::Error(_)
    ));
    assert!(matches!(
        dispatch(RespTypes::Array(None), &mut db),
        RespTypes::Error(_)
    ));
}

#[test]
fn command_tests_a_command_name_that_is_not_valid_utf8_is_an_error() {
    let frame = RespTypes::Array(Some(vec![RespTypes::BulkString(Some(vec![0xff, 0xfe]))]));
    assert!(matches!(
        dispatch(frame, &mut Db::default()),
        RespTypes::Error(_)
    ));
}

#[test]
fn an_element_that_is_not_a_bulk_string_is_an_error() {
    let frame = RespTypes::Array(Some(vec![
        RespTypes::BulkString(Some(b"GET".to_vec())),
        RespTypes::Integer(5),
    ]));
    assert!(matches!(
        dispatch(frame, &mut Db::default()),
        RespTypes::Error(_)
    ));
}

// --- exact wording and the commands the examples describe ----------------

#[test]
fn every_error_has_its_exact_wording() {
    let mut db = Db::default();
    assert_eq!(
        dispatch(RespTypes::Array(None), &mut db),
        error("ERR empty command")
    );
    assert_eq!(
        dispatch(RespTypes::Array(Some(vec![])), &mut db),
        error("ERR empty command")
    );
    assert_eq!(
        dispatch(RespTypes::Integer(7), &mut db),
        error("ERR expected an array of bulk strings")
    );
    assert_eq!(
        dispatch(
            RespTypes::Array(Some(vec![RespTypes::BulkString(None)])),
            &mut db
        ),
        error("ERR every element must be a bulk string")
    );
    assert_eq!(
        dispatch(
            RespTypes::Array(Some(vec![RespTypes::BulkString(Some(vec![0xc3]))])),
            &mut db
        ),
        error("ERR command name must be valid UTF-8")
    );
    assert_eq!(
        run(&["GET"]),
        error("ERR wrong number of arguments for 'get' command")
    );
    assert_eq!(run(&["BLAH"]), error("ERR unknown command 'BLAH'"));
    assert_eq!(run(&["blah"]), error("ERR unknown command 'BLAH'"));
}

#[test]
fn a_key_that_is_not_text_is_refused_by_set_get_and_type() {
    for name in ["SET", "GET", "TYPE"] {
        let mut parts = vec![
            RespTypes::BulkString(Some(name.as_bytes().to_vec())),
            RespTypes::BulkString(Some(vec![0xff])),
        ];
        if name == "SET" {
            parts.push(RespTypes::BulkString(Some(b"v".to_vec())));
        }
        assert_eq!(
            dispatch(RespTypes::Array(Some(parts)), &mut Db::default()),
            error("ERR key must be valid UTF-8")
        );
    }
}

#[test]
fn mset_sets_every_pair_and_mget_reads_them_in_order() {
    let mut db = Db::default();
    assert_eq!(dispatch(command(&["MSET", "a", "1", "b", "2"]), &mut db), ok());
    assert_eq!(
        dispatch(command(&["MGET", "a", "nope", "b"]), &mut db),
        RespTypes::Array(Some(vec![bulk("1"), RespTypes::BulkString(None), bulk("2")]))
    );
}

#[test]
fn mset_with_a_dangling_key_is_an_arity_error() {
    assert_eq!(
        run(&["MSET", "a", "1", "b"]),
        error("ERR wrong number of arguments for 'mset' command")
    );
}

#[test]
fn del_counts_each_present_key_once_and_exists_counts_every_mention() {
    let mut db = Db::default();
    assert_eq!(dispatch(command(&["MSET", "a", "1", "b", "2"]), &mut db), ok());
    assert_eq!(
        dispatch(command(&["EXISTS", "a", "a", "nope", "b", "a"]), &mut db),
        RespTypes::Integer(4)
    );
    assert_eq!(
        dispatch(command(&["DEL", "a", "a", "nope", "b", "a"]), &mut db),
        RespTypes::Integer(2)
    );
    assert_eq!(dispatch(command(&["EXISTS", "a", "b"]), &mut db), RespTypes::Integer(0));
}

#[test]
fn mset_with_no_arguments_is_an_arity_error() {
    let mut db = Db::default();
    assert_eq!(
        dispatch(command(&["MSET"]), &mut db),
        error("ERR wrong number of arguments for 'mset' command")
    );
    assert_eq!(dispatch(command(&["MGET", "a"]), &mut db), RespTypes::Array(Some(vec![RespTypes::BulkString(None)])));
}

#[test]
fn mset_with_a_bad_key_stores_nothing() {
    let mut db = Db::default();
    let frame = RespTypes::Array(Some(vec![
        RespTypes::BulkString(Some(b"MSET".to_vec())),
        RespTypes::BulkString(Some(b"a".to_vec())),
        RespTypes::BulkString(Some(b"1".to_vec())),
        RespTypes::BulkString(Some(vec![0xff])),
        RespTypes::BulkString(Some(b"2".to_vec())),
    ]));
    assert_eq!(dispatch(frame, &mut db), error("ERR key must be valid UTF-8"));
    assert_eq!(dispatch(command(&["EXISTS", "a"]), &mut db), RespTypes::Integer(0));
}

#[test]
fn mset_later_pairs_win() {
    let mut db = Db::default();
    assert_eq!(dispatch(command(&["MSET", "k", "1", "k", "2"]), &mut db), ok());
    assert_eq!(dispatch(command(&["GET", "k"]), &mut db), bulk("2"));
}

#[test]
fn mget_treats_a_key_that_is_not_text_as_missing() {
    let frame = RespTypes::Array(Some(vec![
        RespTypes::BulkString(Some(b"MGET".to_vec())),
        RespTypes::BulkString(Some(vec![0xff])),
    ]));
    assert_eq!(
        dispatch(frame, &mut Db::default()),
        RespTypes::Array(Some(vec![RespTypes::BulkString(None)]))
    );
    assert_eq!(
        run(&["MGET"]),
        error("ERR wrong number of arguments for 'mget' command")
    );
}

#[test]
fn del_counts_a_repeated_key_once() {
    let mut db = Db::default();
    dispatch(command(&["SET", "a", "1"]), &mut db);
    assert_eq!(dispatch(command(&["DEL", "a", "a"]), &mut db), RespTypes::Integer(1));
    assert_eq!(
        run(&["DEL"]),
        error("ERR wrong number of arguments for 'del' command")
    );
    assert_eq!(
        run(&["EXISTS"]),
        error("ERR wrong number of arguments for 'exists' command")
    );
}

#[test]
fn ping_with_two_arguments_is_an_arity_error() {
    assert_eq!(
        run(&["PING", "a", "b"]),
        error("ERR wrong number of arguments for 'ping' command")
    );
    assert_eq!(
        run(&["TYPE"]),
        error("ERR wrong number of arguments for 'type' command")
    );
}

#[test]
fn reads_and_errors_leave_the_keyspace_alone() {
    let mut db = Db::default();
    dispatch(command(&["SET", "k", "v"]), &mut db);
    for parts in [
        &["GET", "k"][..],
        &["EXISTS", "k", "x"],
        &["TYPE", "k"],
        &["MGET", "k", "x"],
        &["PING"],
        &["ECHO", "k"],
        &["SET", "k"],
        &["DEL"],
        &["MSET", "k"],
        &["NOPE", "k"],
    ] {
        dispatch(command(parts), &mut db);
    }
    assert_eq!(dispatch(command(&["GET", "k"]), &mut db), bulk("v"));
    assert_eq!(
        dispatch(command(&["EXISTS", "x"]), &mut db),
        RespTypes::Integer(0)
    );
}

#[test]
fn execute_runs_a_command_by_its_upper_case_name() {
    let mut db = Db::default();
    assert_eq!(
        execute("SET", vec![b"k".to_vec(), b"v".to_vec()], &mut db),
        ok()
    );
    assert_eq!(execute("GET", vec![b"k".to_vec()], &mut db), bulk("v"));
    // The name is taken as given: case folding happens before this point.
    assert_eq!(
        execute("get", vec![b"k".to_vec()], &mut db),
        error("ERR unknown command 'get'")
    );
}
