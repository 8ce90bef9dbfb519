use mnemo::connection::{protocol_error_reply, serve};
use mnemo::resp::encoder::encode;
use mnemo::resp::parser::{parse, RespTypes};
use mnemo::store::db::Db;

/// One client connection as the server sees it: the bytes received and not
/// yet used, and the reply bytes sent back and not yet read.
struct Client {
    inbox: Vec<u8>,
    replies: Vec<u8>,
    closed: bool,
}

impl Client {
    fn connect() -> Client {
        Client { inbox: Vec::new(), replies: Vec::new(), closed: false }
    }

    /// Delivers raw bytes to the server, which serves what it can at once.
    fn write_raw(&mut self, db: &mut Db, bytes: &[u8]) {
        if self.closed {
            return;
        }
        self.inbox.extend_from_slice(bytes);
        let served = serve(&self.inbox, db);
        self.replies.extend_from_slice(&served.reply);
        self.inbox.drain(..served.consumed);
        if served.close {
            self.closed = true;
        }
    }

    /// Sends a command as a RESP array of bulk strings.
    fn send(&mut self, db: &mut Db, parts: &[&str]) {
        let frame = RespTypes::Array(Some(
            parts
                .iter()
                .map(|p| RespTypes::BulkString(Some(p.as_bytes().to_vec())))
                .collect(),
        ));
        self.write_raw(db, &encode(&frame));
    }

    /// Takes the next reply the server sent.
    fn read_reply(&mut self) -> RespTypes {
        let mut pos = 0;
        let reply = parse(&self.replies, &mut pos).expect("a whole reply");
        self.replies.drain(..pos);
        reply
    }

    fn cmd(&mut self, db: &mut Db, parts: &[&str]) -> RespTypes {
        self.send(db, parts);
        self.read_reply()
    }
}

fn simple(s: &str) -> RespTypes {
    RespTypes::SimpleString(s.to_string())
}

fn bulk(s: &str) -> RespTypes {
    RespTypes::BulkString(Some(s.as_bytes().to_vec()))
}

fn ok() -> RespTypes {
    simple("OK")
}

fn error_text(reply: &RespTypes) -> String {
    match reply {
        RespTypes::Error(s) => s.clone(),
        other => panic!("expected an error reply, got {other:?}"),
    }
}

fn assert_error(reply: &RespTypes, prefix: &str) {
    let text = error_text(reply);
    assert!(text.starts_with(prefix), "{text:?} does not start with {prefix:?}");
}

// --- malformed frames ------------------------------------------------------

#[test]
fn handle_an_empty_query() {
    let mut db = Db::default();
    let mut c = Client::connect();
    c.write_raw(&mut db, b"\r\n");
    assert_eq!(c.cmd(&mut db, &["PING"]), simple("PONG"));
}

#[test]
fn negative_multibulk_length() {
    let mut db = Db::default();
    let mut c = Client::connect();
    c.write_raw(&mut db, b"*-10\r\n");
    assert_eq!(c.cmd(&mut db, &["PING"]), simple("PONG"));
}

#[test]
fn out_of_range_multibulk_length() {
    let mut db = Db::default();
    let mut c = Client::connect();
    c.write_raw(&mut db, b"*3000000000\r\n");
    let reply = c.read_reply();
    assert_error(&reply, "ERR Protocol error");
    assert!(error_text(&reply).contains("invalid multibulk length"));
}

#[test]
fn wrong_multibulk_payload_header() {
    let mut db = Db::default();
    let mut c = Client::connect();
    c.write_raw(&mut db, b"*3\r\n$3\r\nSET\r\n$1\r\nx\r\nfooz\r\n");
    let reply = c.read_reply();
    assert_error(&reply, "ERR Protocol error");
    assert!(error_text(&reply).contains("expected '$', got 'f'"));
}

#[test]
fn negative_multibulk_payload_length() {
    let mut db = Db::default();
    let mut c = Client::connect();
    c.write_raw(&mut db, b"*3\r\n$3\r\nSET\r\n$1\r\nx\r\n$-10\r\n");
    let reply = c.read_reply();
    assert_error(&reply, "ERR Protocol error");
    assert!(error_text(&reply).contains("invalid bulk length"));
}

#[test]
fn out_of_range_multibulk_payload_length() {
    let mut db = Db::default();
    let mut c = Client::connect();
    c.write_raw(&mut db, b"*3\r\n$3\r\nSET\r\n$1\r\nx\r\n$2000000000\r\n");
    let reply = c.read_reply();
    assert_error(&reply, "ERR Protocol error");
    assert!(error_text(&reply).contains("invalid bulk length"));
}

#[test]
fn non_number_multibulk_payload_length() {
    let mut db = Db::default();
    let mut c = Client::connect();
    c.write_raw(&mut db, b"*3\r\n$3\r\nSET\r\n$1\r\nx\r\n$blabla\r\n");
    let reply = c.read_reply();
    assert_error(&reply, "ERR Protocol error");
    assert!(error_text(&reply).contains("invalid bulk length"));
}

#[test]
fn multi_bulk_request_not_followed_by_bulk_arguments() {
    let mut db = Db::default();
    let mut c = Client::connect();
    c.write_raw(&mut db, b"*1\r\nfoo\r\n");
    let reply = c.read_reply();
    assert_error(&reply, "ERR Protocol error");
    assert!(error_text(&reply).contains("expected '$', got 'f'"));
}

// --- inline commands -------------------------------------------------------

#[test]
fn inline_command_works() {
    let mut db = Db::default();
    let mut c = Client::connect();
    c.write_raw(&mut db, b"PING\r\n");
    assert_eq!(c.read_reply(), simple("PONG"));
}

#[test]
fn unbalanced_number_of_quotes() {
    let mut db = Db::default();
    let mut c = Client::connect();
    c.write_raw(&mut db, b"set \"\"\"test-key\"\"\" test-value\r\n");
    c.write_raw(&mut db, b"ping\r\n");
    let reply = c.read_reply();
    assert_error(&reply, "ERR Protocol error");
    assert!(error_text(&reply).contains("unbalanced"));
}

// --- desync recovery -------------------------------------------------------

#[test]
fn protocol_desync_regression() {
    for seq in [&b"\x00"[..], &b"*\x00"[..], &b"$\x00"[..]] {
        let mut db = Db::default();
        let mut c = Client::connect();
        c.write_raw(&mut db, seq);

        let payload = vec![b'A'; 1024];
        let mut wrote = 0usize;
        while wrote < 64 * 1024 * 1024 {
            c.write_raw(&mut db, &payload);
            wrote += payload.len();
        }

        let reply = c.read_reply();
        assert!(
            error_text(&reply).contains("Protocol error"),
            "expected a protocol error after {wrote} bytes of desync, got {reply:?}"
        );
    }
}

// --- well-formed traffic ---------------------------------------------------

#[test]
fn generic_wrong_number_of_args() {
    let mut db = Db::default();
    let mut c = Client::connect();
    let reply = c.cmd(&mut db, &["PING", "x", "y", "z"]);
    assert_error(&reply, "ERR wrong number of arguments");
    assert!(error_text(&reply).contains("ping"));
}

#[test]
fn commands_pipelining() {
    let mut db = Db::default();
    let mut c = Client::connect();
    c.send(&mut db, &["SET", "pipe_k1", "xyzk"]);
    c.send(&mut db, &["GET", "pipe_k1"]);
    c.send(&mut db, &["PING"]);
    assert_eq!(c.read_reply(), ok());
    assert_eq!(c.read_reply(), bulk("xyzk"));
    assert_eq!(c.read_reply(), simple("PONG"));
}

#[test]
fn command_split_across_packets() {
    let mut db = Db::default();
    let mut c = Client::connect();
    c.write_raw(&mut db, b"*3\r\n$3\r\nSET\r\n$7\r\nsplit_k");
    c.write_raw(&mut db, b"\r\n$5\r\nvalue\r\n");
    assert_eq!(c.read_reply(), ok());
    assert_eq!(c.cmd(&mut db, &["GET", "split_k"]), bulk("value"));
}

#[test]
fn non_existing_command() {
    let mut db = Db::default();
    let mut c = Client::connect();
    assert_error(&c.cmd(&mut db, &["foobaredcommand"]), "ERR unknown command");
    assert_eq!(c.cmd(&mut db, &["PING"]), simple("PONG"));
}

#[test]
fn command_names_are_case_insensitive() {
    let mut db = Db::default();
    let mut c = Client::connect();
    assert_eq!(c.cmd(&mut db, &["ping"]), simple("PONG"));
    assert_eq!(c.cmd(&mut db, &["PiNg"]), simple("PONG"));
}

#[test]
fn multiple_clients_are_independent() {
    let mut db = Db::default();
    let mut a = Client::connect();
    let mut b = Client::connect();
    assert_eq!(a.cmd(&mut db, &["SET", "shared_key", "from_a"]), ok());
    assert_eq!(b.cmd(&mut db, &["GET", "shared_key"]), bulk("from_a"));
    assert_eq!(b.cmd(&mut db, &["PING"]), simple("PONG"));
    assert_eq!(a.cmd(&mut db, &["PING"]), simple("PONG"));
}

// --- serve itself ----------------------------------------------------------

#[test]
fn serve_answers_every_complete_command_and_keeps_the_rest() {
    let mut db = Db::default();
    let buf = b"*1\r\n$4\r\nPING\r\nECHO hi\r\n*2\r\n$3\r\nGET";
    let served = serve(buf, &mut db);
    assert_eq!(served.reply, b"+PONG\r\n$2\r\nhi\r\n".to_vec());
    assert_eq!(served.consumed, 23);
    assert!(!served.close);
}

#[test]
fn serve_answers_a_protocol_error_and_closes() {
    let mut db = Db::default();
    let served = serve(b"PING\r\n*1\r\nfoo\r\nPING\r\n", &mut db);
    assert_eq!(
        served.reply,
        b"+PONG\r\n-ERR Protocol error: expected '$', got 'f'\r\n".to_vec()
    );
    assert!(served.close);
}

#[test]
fn serve_runs_commands_against_the_keyspace_in_order() {
    let mut db = Db::default();
    let served = serve(b"SET k 1\r\nGET k\r\nSET k 2\r\nGET k\r\n", &mut db);
    assert_eq!(served.reply, b"+OK\r\n$1\r\n1\r\n+OK\r\n$1\r\n2\r\n".to_vec());
    assert_eq!(served.consumed, 32);
    let again = serve(b"GET k\r\n", &mut db);
    assert_eq!(again.reply, b"$1\r\n2\r\n".to_vec());
}

#[test]
fn an_empty_command_array_is_answered_with_an_error() {
    let mut db = Db::default();
    let served = serve(b"*0\r\n*-1\r\nPING\r\n", &mut db);
    assert_eq!(served.reply, b"-ERR empty command\r\n+PONG\r\n".to_vec());
    assert!(!served.close);
}

#[test]
fn serve_on_nothing_answers_nothing() {
    let mut db = Db::default();
    let served = serve(b"", &mut db);
    assert!(served.reply.is_empty());
    assert_eq!(served.consumed, 0);
    assert!(!served.close);
}

#[test]
fn a_pipeline_is_answered_as_its_commands_one_by_one() {
    let first = b"SET a 1\r\n*2\r\n$3\r\nGET\r\n$1\r\na\r\n".to_vec();
    let second = b"DEL a\r\nGET a\r\n".to_vec();
    let mut together = first.clone();
    together.extend_from_slice(&second);

    let mut db1 = Db::default();
    let both = serve(&together, &mut db1);

    let mut db2 = Db::default();
    let one = serve(&first, &mut db2);
    assert_eq!(one.consumed, first.len());
    let two = serve(&second, &mut db2);
    let mut expected = one.reply.clone();
    expected.extend_from_slice(&two.reply);
    assert_eq!(both.reply, expected);
    assert_eq!(both.consumed, together.len());
}

#[test]
fn protocol_error_reply_prefixes_the_message() {
    assert_eq!(
        protocol_error_reply("invalid bulk length"),
        RespTypes::Error("ERR Protocol error: invalid bulk length".to_string())
    );
}
