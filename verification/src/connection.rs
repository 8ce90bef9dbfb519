//! What one connection does with the bytes it has received: every complete
//! command in them is run, in order, and its reply queued; a protocol error
//! is answered and then the connection is closed.
use crate::dispatch::{dispatch, dispatch_outcome};
use crate::resp::encoder::encode;
use crate::resp::laws::{law_command_resumes_after_incomplete, law_read_command_extends};
use crate::resp::parser::{lemma_read_command_advances, parse_command, ParseError, RespTypes};
use crate::resp::wire::{self, Failure, Frame};
use crate::store::db::Db;
use crate::text::append_bytes;
use vstd::prelude::*;
use vstd::string::*;

verus! {

/// What serving the received bytes from some position on comes to.
pub struct Session {
    /// The replies, written one after another.
    pub out: Seq<u8>,
    /// The keyspace afterwards.
    pub db: Map<Seq<char>, Seq<u8>>,
    /// Where reading stopped: the next command starts here.
    pub pos: int,
    /// Whether the connection is closed once `out` is sent.
    pub close: bool,
}

/// The reply to bytes that are not RESP.
pub open spec fn protocol_error_frame(message: Seq<char>) -> Frame {
    Frame::Error("ERR Protocol error: "@ + message)
}

/// Serving `buf` from `pos` on, against the keyspace `db`: each complete
/// command is run and its reply written, until the bytes run out, or until
/// a protocol error, which is answered and closes the connection.
pub open spec fn serve_from(buf: Seq<u8>, pos: int, db: Map<Seq<char>, Seq<u8>>) -> Session
    decreases buf.len() - pos,
{
    let r = wire::read_command(buf, pos);
    match r.result {
        Err(Failure::Incomplete) => Session { out: Seq::empty(), db, pos: r.pos, close: false },
        Err(Failure::Protocol(m)) => Session {
            out: wire::encode_frame(protocol_error_frame(m)),
            db,
            pos: r.pos,
            close: true,
        },
        Ok(f) => if pos < r.pos <= buf.len() {
            let o = dispatch_outcome(f, db);
            let rest = serve_from(buf, r.pos, o.db);
            Session {
                out: wire::encode_frame(o.reply) + rest.out,
                db: rest.db,
                pos: rest.pos,
                close: rest.close,
            }
        } else {
            // a command always ends past where it starts
            Session { out: Seq::empty(), db, pos, close: false }
        },
    }
}

/// What `serve` hands back to the connection.
pub struct Served {
    /// The bytes to send to the client.
    pub reply: Vec<u8>,
    /// How many bytes of the input were used up; the rest is kept for the
    /// next read.
    pub consumed: usize,
    /// Whether to close the connection after sending `reply`.
    pub close: bool,
}

/// `-ERR Protocol error: <message>`, the reply sent before a connection is
/// closed for bytes that are not RESP.
pub fn protocol_error_reply(message: &str) -> (r: RespTypes)
    ensures
        r@ == protocol_error_frame(message@),
{
    let mut text = String::from_str("ERR Protocol error: ");
    text.append(message);
    RespTypes::Error(text)
}

/// Runs every complete command in `buf` against `store`, in order, and
/// returns their replies one after another, so that commands sent together
/// in one write are all answered. A command cut short at the end of `buf` is
/// left for when more bytes arrive. Bytes that are not RESP are answered with
/// `-ERR Protocol error: ...` and the connection is to be closed.
pub fn serve(buf: &[u8], store: &mut Db) -> (r: Served)
    requires
        buf@.len() < usize::MAX,
        buf@.len() <= i64::MAX,
    ensures
        ({
            let s = serve_from(buf@, 0, old(store)@);
            &&& r.reply@ == s.out
            &&& r.consumed == s.pos
            &&& r.close == s.close
            &&& final(store)@ == s.db
        }),
{
    let mut out: Vec<u8> = Vec::new();
    let mut pos: usize = 0;
    let ghost whole = serve_from(buf@, 0, store@);
    assert(out@ + whole.out =~= whole.out);
    loop
        invariant
            buf@.len() < usize::MAX,
            buf@.len() <= i64::MAX,
            pos <= buf@.len(),
            whole == serve_from(buf@, 0, old(store)@),
            ({
                let rest = serve_from(buf@, pos as int, store@);
                &&& whole.out == out@ + rest.out
                &&& whole.db == rest.db
                &&& whole.pos == rest.pos
                &&& whole.close == rest.close
            }),
        decreases buf@.len() - pos,
    {
        let start = pos;
        match parse_command(buf, &mut pos) {
            Ok(frame) => {
                proof {
                    lemma_read_command_advances(buf@, start as int);
                }
                let ghost before = store@;
                let reply = dispatch(frame, store);
                let bytes = encode(&reply);
                proof {
                    let rest = serve_from(buf@, pos as int, store@);
                    assert(serve_from(buf@, start as int, before).out == bytes@ + rest.out);
                    assert(out@ + (bytes@ + rest.out) =~= (out@ + bytes@) + rest.out);
                }
                append_bytes(&mut out, bytes.as_slice());
            },
            Err(ParseError::Incomplete) => {
                assert(out@ + Seq::<u8>::empty() =~= out@);
                return Served { reply: out, consumed: pos, close: false };
            },
            Err(ParseError::Protocol(message)) => {
                let reply = protocol_error_reply(message.as_str());
                let bytes = encode(&reply);
                append_bytes(&mut out, bytes.as_slice());
                return Served { reply: out, consumed: pos, close: true };
            },
        }
    }
}

/// Serving from `p` in `a` and then serving what follows it in `a + b`.
proof fn lemma_serve_extends(a: Seq<u8>, b: Seq<u8>, p: int, db: Map<Seq<char>, Seq<u8>>)
    requires
        0 <= p <= a.len(),
        serve_from(a, p, db).pos == a.len(),
        !serve_from(a, p, db).close,
    ensures
        ({
            let s = serve_from(a, p, db);
            let t = serve_from(a + b, a.len() as int, s.db);
            serve_from(a + b, p, db) == Session {
                out: s.out + t.out,
                db: t.db,
                pos: t.pos,
                close: t.close,
            }
        }),
    decreases a.len() - p,
{
    let r = wire::read_command(a, p);
    let s = serve_from(a, p, db);
    match r.result {
        Err(Failure::Incomplete) => {
            law_command_resumes_after_incomplete(a, b, p);
            let t = serve_from(a + b, a.len() as int, db);
            let r2 = wire::read_command(a + b, a.len() as int);
            if r2.result is Ok {
                lemma_read_command_advances(a + b, a.len() as int);
            }
            assert(s.out + t.out =~= t.out);
        },
        Err(Failure::Protocol(m)) => {},
        Ok(f) => {
            lemma_read_command_advances(a, p);
            law_read_command_extends(a, b, p);
            let o = dispatch_outcome(f, db);
            lemma_serve_extends(a, b, r.pos, o.db);
            let rest = serve_from(a, r.pos, o.db);
            let t = serve_from(a + b, a.len() as int, rest.db);
            assert(wire::encode_frame(o.reply) + (rest.out + t.out) =~= (wire::encode_frame(
                o.reply,
            ) + rest.out) + t.out);
        },
    }
}

/// Commands that arrive together are answered as if each had arrived on its
/// own: serving `a + b`, where `a` holds whole commands and no protocol
/// error, gives the replies to the commands of `a`, in order, followed by
/// the replies to those of `b` run against the keyspace that `a` left.
pub proof fn law_pipelined_commands_are_answered_in_order(
    a: Seq<u8>,
    b: Seq<u8>,
    db: Map<Seq<char>, Seq<u8>>,
)
    requires
        serve_from(a, 0, db).pos == a.len(),
        !serve_from(a, 0, db).close,
    ensures
        ({
            let s = serve_from(a, 0, db);
            let t = serve_from(a + b, a.len() as int, s.db);
            &&& serve_from(a + b, 0, db).out == s.out + t.out
            &&& serve_from(a + b, 0, db).db == t.db
            &&& serve_from(a + b, 0, db).pos == t.pos
            &&& serve_from(a + b, 0, db).close == t.close
        }),
{
    lemma_serve_extends(a, b, 0, db);
}

} // verus!
