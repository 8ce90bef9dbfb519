//! Running one command against the keyspace.
//!
//! A command is an array of bulk strings: element 0 is the name, the rest are
//! the arguments. Anything else gets an `-ERR` reply, never a dropped
//! connection. Names are case-insensitive; values are raw bytes; keys must be
//! UTF-8 text.
use crate::resp::parser::{frame_of, frames_of, lemma_frames_of, lemma_frames_of_push, RespTypes};
use crate::resp::wire::Frame;
use crate::store::db::Db;
use crate::store::value::RedisValue;
use crate::text::{self, bytes_to_vec, string_from_utf8, text_eq, to_uppercase};
use vstd::prelude::*;
use vstd::string::*;
use vstd::utf8::*;

verus! {

broadcast use vstd::utf8::group_utf8_lib, vstd::std_specs::vec::group_vec_axioms;

/// What `dispatch` does to a frame and a keyspace: the reply and the
/// keyspace afterwards.
pub struct Outcome {
    pub reply: Frame,
    pub db: Map<Seq<char>, Seq<u8>>,
}

pub open spec fn outcome(reply: Frame, db: Map<Seq<char>, Seq<u8>>) -> Outcome {
    Outcome { reply, db }
}

/// The bytes of each argument.
pub open spec fn arg_bytes(args: Seq<Vec<u8>>) -> Seq<Seq<u8>> {
    Seq::new(args.len(), |i: int| args[i]@)
}

/// Every element is a (non-null) bulk string.
pub open spec fn all_bulk(parts: Seq<Frame>) -> bool {
    forall|i: int| 0 <= i < parts.len() ==> #[trigger] parts[i] matches Frame::Bulk(Some(_))
}

/// The bytes of each bulk string.
pub open spec fn bulk_bytes(parts: Seq<Frame>) -> Seq<Seq<u8>> {
    Seq::new(parts.len(), |i: int| parts[i]->Bulk_0->Some_0)
}

/// The `-ERR` reply for a command given the wrong number of arguments.
pub open spec fn arity_error(command: Seq<char>) -> Frame {
    Frame::Error("ERR wrong number of arguments for '"@ + command + "' command"@)
}

/// The `-ERR` reply for a command name nobody knows.
pub open spec fn unknown_command_error(name: Seq<char>) -> Frame {
    Frame::Error("ERR unknown command '"@ + name + "'"@)
}

/// The `-ERR` reply for a key that is not text.
pub open spec fn bad_key_error() -> Frame {
    Frame::Error("ERR key must be valid UTF-8"@)
}

pub open spec fn ok_reply() -> Frame {
    Frame::Simple("OK"@)
}

/// `PING`: `+PONG`, or the one argument echoed back.
pub open spec fn ping_reply(args: Seq<Seq<u8>>) -> Frame {
    if args.len() == 0 {
        Frame::Simple("PONG"@)
    } else if args.len() == 1 {
        Frame::Bulk(Some(args[0]))
    } else {
        arity_error("ping"@)
    }
}

/// `ECHO message`: the message.
pub open spec fn echo_reply(args: Seq<Seq<u8>>) -> Frame {
    if args.len() == 1 {
        Frame::Bulk(Some(args[0]))
    } else {
        arity_error("echo"@)
    }
}

/// `SET key value`: store the bytes under the key; overwriting is fine.
pub open spec fn set_outcome(args: Seq<Seq<u8>>, db: Map<Seq<char>, Seq<u8>>) -> Outcome {
    if args.len() != 2 {
        outcome(arity_error("set"@), db)
    } else if !valid_utf8(args[0]) {
        outcome(bad_key_error(), db)
    } else {
        outcome(ok_reply(), db.insert(decode_utf8(args[0]), args[1]))
    }
}

/// The reply that stands for what a key holds: its bytes, or nil.
pub open spec fn lookup(db: Map<Seq<char>, Seq<u8>>, key: Seq<char>) -> Frame {
    if db.contains_key(key) {
        Frame::Bulk(Some(db[key]))
    } else {
        Frame::Bulk(None)
    }
}

/// `GET key`: the stored bytes, or nil when the key is missing.
pub open spec fn get_reply(args: Seq<Seq<u8>>, db: Map<Seq<char>, Seq<u8>>) -> Frame {
    if args.len() != 1 {
        arity_error("get"@)
    } else if !valid_utf8(args[0]) {
        bad_key_error()
    } else {
        lookup(db, decode_utf8(args[0]))
    }
}

/// Deleting the keys one after another: how many were actually there, and
/// the keyspace afterwards. Arguments that are not text name no key.
pub open spec fn delete_keys(keys: Seq<Seq<u8>>, db: Map<Seq<char>, Seq<u8>>) -> (
    int,
    Map<Seq<char>, Seq<u8>>,
)
    decreases keys.len(),
{
    if keys.len() == 0 {
        (0, db)
    } else {
        let (n, d) = delete_keys(keys.drop_last(), db);
        let k = keys.last();
        if valid_utf8(k) && d.contains_key(decode_utf8(k)) {
            (n + 1, d.remove(decode_utf8(k)))
        } else {
            (n, d)
        }
    }
}

/// `DEL key [key ...]`: how many keys were removed.
pub open spec fn del_outcome(args: Seq<Seq<u8>>, db: Map<Seq<char>, Seq<u8>>) -> Outcome {
    if args.len() == 0 {
        outcome(arity_error("del"@), db)
    } else {
        let (n, d) = delete_keys(args, db);
        outcome(Frame::Integer(n), d)
    }
}

/// How many of the arguments name a key that is there; repeats count again.
pub open spec fn count_present(keys: Seq<Seq<u8>>, db: Map<Seq<char>, Seq<u8>>) -> int
    decreases keys.len(),
{
    if keys.len() == 0 {
        0
    } else {
        count_present(keys.drop_last(), db) + if valid_utf8(keys.last()) && db.contains_key(
            decode_utf8(keys.last()),
        ) {
            1int
        } else {
            0int
        }
    }
}

/// `EXISTS key [key ...]`: how many of the keys exist.
pub open spec fn exists_reply(args: Seq<Seq<u8>>, db: Map<Seq<char>, Seq<u8>>) -> Frame {
    if args.len() == 0 {
        arity_error("exists"@)
    } else {
        Frame::Integer(count_present(args, db))
    }
}

/// `TYPE key`: `+string`, or `+none` for a missing key.
pub open spec fn type_reply(args: Seq<Seq<u8>>, db: Map<Seq<char>, Seq<u8>>) -> Frame {
    if args.len() != 1 {
        arity_error("type"@)
    } else if !valid_utf8(args[0]) {
        bad_key_error()
    } else if db.contains_key(decode_utf8(args[0])) {
        Frame::Simple("string"@)
    } else {
        Frame::Simple("none"@)
    }
}

/// Storing key/value pairs one after another.
pub open spec fn store_pairs(args: Seq<Seq<u8>>, db: Map<Seq<char>, Seq<u8>>) -> Map<
    Seq<char>,
    Seq<u8>,
>
    decreases args.len(),
{
    if args.len() < 2 {
        db
    } else {
        store_pairs(args.take(args.len() - 2), db).insert(
            decode_utf8(args[args.len() - 2]),
            args[args.len() - 1],
        )
    }
}

/// Every key of the key/value pairs is text.
pub open spec fn pair_keys_valid(args: Seq<Seq<u8>>) -> bool {
    forall|j: int| 0 <= j < args.len() / 2 ==> #[trigger] valid_utf8(args[2 * j])
}

/// `MSET key value [key value ...]`: at least one pair; all or nothing, so a
/// bad key stores nothing.
pub open spec fn mset_outcome(args: Seq<Seq<u8>>, db: Map<Seq<char>, Seq<u8>>) -> Outcome {
    if args.len() == 0 || args.len() % 2 != 0 {
        outcome(arity_error("mset"@), db)
    } else if !pair_keys_valid(args) {
        outcome(bad_key_error(), db)
    } else {
        outcome(ok_reply(), store_pairs(args, db))
    }
}

/// One slot of an `MGET` reply: the bytes, or nil for a missing or
/// non-text key.
pub open spec fn mget_item(key: Seq<u8>, db: Map<Seq<char>, Seq<u8>>) -> Frame {
    if valid_utf8(key) {
        lookup(db, decode_utf8(key))
    } else {
        Frame::Bulk(None)
    }
}

/// `MGET key [key ...]`: one slot per key, in the order asked.
pub open spec fn mget_reply(args: Seq<Seq<u8>>, db: Map<Seq<char>, Seq<u8>>) -> Frame {
    if args.len() == 0 {
        arity_error("mget"@)
    } else {
        Frame::Array(Some(Seq::new(args.len(), |i: int| mget_item(args[i], db))))
    }
}

/// Running the command whose upper-cased name is `name`.
pub open spec fn run_command(name: Seq<char>, args: Seq<Seq<u8>>, db: Map<Seq<char>, Seq<u8>>) -> Outcome {
    if name == "PING"@ {
        outcome(ping_reply(args), db)
    } else if name == "ECHO"@ {
        outcome(echo_reply(args), db)
    } else if name == "SET"@ {
        set_outcome(args, db)
    } else if name == "GET"@ {
        outcome(get_reply(args, db), db)
    } else if name == "DEL"@ {
        del_outcome(args, db)
    } else if name == "EXISTS"@ {
        outcome(exists_reply(args, db), db)
    } else if name == "TYPE"@ {
        outcome(type_reply(args, db), db)
    } else if name == "MSET"@ {
        mset_outcome(args, db)
    } else if name == "MGET"@ {
        outcome(mget_reply(args, db), db)
    } else {
        outcome(unknown_command_error(name), db)
    }
}

/// What one frame from a client does: the reply, and the keyspace after it.
pub open spec fn dispatch_outcome(frame: Frame, db: Map<Seq<char>, Seq<u8>>) -> Outcome {
    match frame {
        Frame::Array(Some(parts)) => if parts.len() == 0 {
            outcome(Frame::Error("ERR empty command"@), db)
        } else if !all_bulk(parts) {
            outcome(Frame::Error("ERR every element must be a bulk string"@), db)
        } else if !valid_utf8(bulk_bytes(parts)[0]) {
            outcome(Frame::Error("ERR command name must be valid UTF-8"@), db)
        } else {
            run_command(
                text::upper_case(decode_utf8(bulk_bytes(parts)[0])),
                bulk_bytes(parts).drop_first(),
                db,
            )
        },
        Frame::Array(None) => outcome(Frame::Error("ERR empty command"@), db),
        _ => outcome(Frame::Error("ERR expected an array of bulk strings"@), db),
    }
}

/// Wraps a message as a RESP error frame.
fn error(message: &str) -> (r: RespTypes)
    ensures
        r@ == Frame::Error(message@),
{
    RespTypes::Error(String::from_str(message))
}

/// The "wrong number of arguments" error, worded exactly as Redis words it.
fn wrong_arity(command: &str) -> (r: RespTypes)
    ensures
        r@ == arity_error(command@),
{
    let mut message = String::from_str("ERR wrong number of arguments for '");
    message.append(command);
    message.append("' command");
    RespTypes::Error(message)
}

/// Turns argument bytes into a key, or gives back the error frame to reply
/// with. Keys must be UTF-8 text; values may be any bytes.
fn key_of(bytes: &[u8]) -> (r: Result<String, RespTypes>)
    ensures
        match r {
            Ok(key) => valid_utf8(bytes@) && key@ == decode_utf8(bytes@),
            Err(reply) => !valid_utf8(bytes@) && reply@ == bad_key_error(),
        },
{
    match string_from_utf8(bytes_to_vec(bytes)) {
        Some(key) => Ok(key),
        None => Err(error("ERR key must be valid UTF-8")),
    }
}

/// `PING`: `+PONG`; `PING hello` replies `hello` instead.
pub fn cmd_ping(mut args: Vec<Vec<u8>>) -> (r: RespTypes)
    ensures
        r@ == ping_reply(arg_bytes(args@)),
{
    let n = args.len();
    if n == 0 {
        RespTypes::SimpleString(String::from_str("PONG"))
    } else if n == 1 {
        RespTypes::BulkString(Some(args.remove(0)))
    } else {
        wrong_arity("ping")
    }
}

/// `ECHO message`: sends the message straight back.
pub fn cmd_echo(mut args: Vec<Vec<u8>>) -> (r: RespTypes)
    ensures
        r@ == echo_reply(arg_bytes(args@)),
{
    if args.len() == 1 {
        RespTypes::BulkString(Some(args.remove(0)))
    } else {
        wrong_arity("echo")
    }
}

/// `SET key value`: stores bytes under a key and replies `+OK`.
pub fn cmd_set(mut args: Vec<Vec<u8>>, store: &mut Db) -> (r: RespTypes)
    ensures
        r@ == set_outcome(arg_bytes(args@), old(store)@).reply,
        final(store)@ == set_outcome(arg_bytes(args@), old(store)@).db,
{
    let ghost a = arg_bytes(args@);
    if args.len() != 2 {
        return wrong_arity("set");
    }
    let value = args.remove(1);
    let key = match key_of(args[0].as_slice()) {
        Ok(key) => key,
        Err(reply) => return reply,
    };
    // Overwriting is normal: the old value is dropped, not reported.
    store.set(key, RedisValue::String(value));
    RespTypes::SimpleString(String::from_str("OK"))
}

/// The reply for what the store holds under `key`.
fn lookup_reply(store: &Db, key: &str) -> (r: RespTypes)
    ensures
        r@ == lookup(store@, key@),
{
    match store.get(key) {
        None => RespTypes::BulkString(None),
        Some(RedisValue::String(bytes)) => RespTypes::BulkString(Some(bytes_to_vec(bytes.as_slice()))),
    }
}

/// `GET key`: the stored bytes, or the null bulk string if the key is not
/// there.
pub fn cmd_get(args: &[Vec<u8>], store: &Db) -> (r: RespTypes)
    ensures
        r@ == get_reply(arg_bytes(args@), store@),
{
    if args.len() != 1 {
        return wrong_arity("get");
    }
    let key = match key_of(args[0].as_slice()) {
        Ok(key) => key,
        Err(reply) => return reply,
    };
    lookup_reply(store, key.as_str())
}

/// `DEL key [key ...]`: deletes keys and replies how many were removed.
pub fn cmd_del(args: &[Vec<u8>], store: &mut Db) -> (r: RespTypes)
    requires
        args@.len() <= i64::MAX,
    ensures
        r@ == del_outcome(arg_bytes(args@), old(store)@).reply,
        final(store)@ == del_outcome(arg_bytes(args@), old(store)@).db,
{
    if args.len() == 0 {
        return wrong_arity("del");
    }
    let ghost keys = arg_bytes(args@);
    let ghost db0 = store@;
    let mut removed: i64 = 0;
    let mut i: usize = 0;
    while i < args.len()
        invariant
            i <= args@.len(),
            args@.len() <= i64::MAX,
            keys == arg_bytes(args@),
            0 <= removed <= i,
            (removed as int, store@) == delete_keys(keys.take(i as int), db0),
        decreases args.len() - i,
    {
        proof {
            assert(keys.take(i + 1).drop_last() =~= keys.take(i as int));
            assert(keys.take(i + 1).last() == args@[i as int]@);
        }
        if let Ok(key) = key_of(args[i].as_slice()) {
            if store.del(key.as_str()).is_some() {
                removed += 1;
            }
        }
        i = i + 1;
    }
    assert(keys.take(i as int) =~= keys);
    RespTypes::Integer(removed)
}

/// `EXISTS key [key ...]`: how many of these keys exist, repeats counted.
pub fn cmd_exists(args: &[Vec<u8>], store: &Db) -> (r: RespTypes)
    requires
        args@.len() <= i64::MAX,
    ensures
        r@ == exists_reply(arg_bytes(args@), store@),
{
    if args.len() == 0 {
        return wrong_arity("exists");
    }
    let ghost keys = arg_bytes(args@);
    let mut found: i64 = 0;
    let mut i: usize = 0;
    while i < args.len()
        invariant
            i <= args@.len(),
            args@.len() <= i64::MAX,
            keys == arg_bytes(args@),
            0 <= found <= i,
            found as int == count_present(keys.take(i as int), store@),
        decreases args.len() - i,
    {
        proof {
            assert(keys.take(i + 1).drop_last() =~= keys.take(i as int));
            assert(keys.take(i + 1).last() == args@[i as int]@);
        }
        if let Ok(key) = key_of(args[i].as_slice()) {
            if store.key_exists(key.as_str()) {
                found += 1;
            }
        }
        i = i + 1;
    }
    assert(keys.take(i as int) =~= keys);
    RespTypes::Integer(found)
}

/// `TYPE key`: the type name of the stored value, or `none`.
pub fn cmd_type(args: &[Vec<u8>], store: &Db) -> (r: RespTypes)
    ensures
        r@ == type_reply(arg_bytes(args@), store@),
{
    if args.len() != 1 {
        return wrong_arity("type");
    }
    let key = match key_of(args[0].as_slice()) {
        Ok(key) => key,
        Err(reply) => return reply,
    };
    // A missing key is the literal string `none`, not an error and not nil.
    let name = match store.type_of(key.as_str()) {
        Some(name) => name,
        None => "none",
    };
    RespTypes::SimpleString(String::from_str(name))
}

/// `MSET key value [key value ...]`: sets many keys at once and replies
/// `+OK`.
///
/// All or nothing: every key is checked before anything is written, so a bad
/// key means nothing was stored.
pub fn cmd_mset(args: Vec<Vec<u8>>, store: &mut Db) -> (r: RespTypes)
    ensures
        r@ == mset_outcome(arg_bytes(args@), old(store)@).reply,
        final(store)@ == mset_outcome(arg_bytes(args@), old(store)@).db,
{
    let ghost a = arg_bytes(args@);
    if args.len() == 0 || args.len() % 2 != 0 {
        return wrong_arity("mset");
    }
    let mut keys: Vec<String> = Vec::with_capacity(args.len() / 2);
    let mut j: usize = 0;
    while j < args.len() / 2
        invariant
            a == arg_bytes(args@),
            args@.len() % 2 == 0,
            j <= args@.len() / 2,
            keys@.len() == j,
            forall|t: int| 0 <= t < j ==> #[trigger] valid_utf8(a[2 * t]) && keys@[t]@
                == decode_utf8(a[2 * t]),
        decreases args.len() / 2 - j,
    {
        match key_of(args[2 * j].as_slice()) {
            Ok(key) => keys.push(key),
            Err(reply) => {
                assert(a[2 * (j as int)] == args@[2 * (j as int)]@);
                assert(!valid_utf8(a[2 * (j as int)]));
                assert(!pair_keys_valid(a));
                return reply;
            },
        }
        j = j + 1;
    }
    let ghost db0 = store@;
    let mut j: usize = 0;
    while j < args.len() / 2
        invariant
            a == arg_bytes(args@),
            args@.len() % 2 == 0,
            j <= args@.len() / 2,
            keys@.len() == args@.len() / 2,
            forall|t: int| 0 <= t < args@.len() / 2 ==> #[trigger] valid_utf8(a[2 * t]) && keys@[t]@
                == decode_utf8(a[2 * t]),
            store@ == store_pairs(a.take(2 * j), db0),
        decreases args.len() / 2 - j,
    {
        let key = keys[j].clone();
        let value = bytes_to_vec(args[2 * j + 1].as_slice());
        proof {
            assert(2 * j + 2 <= args@.len());
            assert(a[2 * (j as int)] == args@[2 * (j as int)]@);
            assert(a[2 * (j as int) + 1] == args@[2 * (j as int) + 1]@);
            let p = a.take(2 * j + 2);
            assert(p.take(p.len() - 2) =~= a.take(2 * j));
            assert(p[p.len() - 2] == a[2 * j]);
            assert(p[p.len() - 1] == a[2 * j + 1]);
            assert(valid_utf8(a[2 * (j as int)]));
            assert(key@ == decode_utf8(a[2 * (j as int)]));
            assert(store_pairs(p, db0) == store_pairs(a.take(2 * j), db0).insert(
                decode_utf8(a[2 * (j as int)]),
                a[2 * (j as int) + 1],
            ));
        }
        store.set(key, RedisValue::String(value));
        j = j + 1;
    }
    assert(a.take(2 * j) =~= a);
    RespTypes::SimpleString(String::from_str("OK"))
}

/// `MGET key [key ...]`: one element per key, in the order asked, nil for a
/// missing key. Never fails on a bad key: it cannot exist, so it is nil too.
pub fn cmd_mget(args: &[Vec<u8>], store: &Db) -> (r: RespTypes)
    ensures
        r@ == mget_reply(arg_bytes(args@), store@),
{
    if args.len() == 0 {
        return wrong_arity("mget");
    }
    let ghost keys = arg_bytes(args@);
    let ghost want = Seq::new(keys.len(), |t: int| mget_item(keys[t], store@));
    let mut out: Vec<RespTypes> = Vec::with_capacity(args.len());
    let mut i: usize = 0;
    while i < args.len()
        invariant
            i <= args@.len(),
            keys == arg_bytes(args@),
            want == Seq::new(keys.len(), |t: int| mget_item(keys[t], store@)),
            frames_of(out@) == want.take(i as int),
        decreases args.len() - i,
    {
        let reply = match key_of(args[i].as_slice()) {
            Ok(key) => lookup_reply(store, key.as_str()),
            Err(_) => RespTypes::BulkString(None),
        };
        proof {
            lemma_frames_of_push(out@, reply);
            assert(want.take(i + 1) =~= want.take(i as int).push(reply@));
        }
        out.push(reply);
        i = i + 1;
    }
    assert(want.take(i as int) =~= want);
    RespTypes::Array(Some(out))
}

/// Runs the command whose upper-case name is `name` on its arguments.
pub fn execute(name: &str, args: Vec<Vec<u8>>, store: &mut Db) -> (r: RespTypes)
    requires
        args@.len() <= i64::MAX,
    ensures
        r@ == run_command(name@, arg_bytes(args@), old(store)@).reply,
        final(store)@ == run_command(name@, arg_bytes(args@), old(store)@).db,
{
    if text_eq(name, "PING") {
        cmd_ping(args)
    } else if text_eq(name, "ECHO") {
        cmd_echo(args)
    } else if text_eq(name, "SET") {
        cmd_set(args, store)
    } else if text_eq(name, "GET") {
        cmd_get(args.as_slice(), store)
    } else if text_eq(name, "DEL") {
        cmd_del(args.as_slice(), store)
    } else if text_eq(name, "EXISTS") {
        cmd_exists(args.as_slice(), store)
    } else if text_eq(name, "TYPE") {
        cmd_type(args.as_slice(), store)
    } else if text_eq(name, "MSET") {
        cmd_mset(args, store)
    } else if text_eq(name, "MGET") {
        cmd_mget(args.as_slice(), store)
    } else {
        let mut message = String::from_str("ERR unknown command '");
        message.append(name);
        message.append("'");
        RespTypes::Error(message)
    }
}

/// Runs one command and returns the reply to send back.
///
/// ```text
/// ["PING"]          -> +PONG
/// ["GET", "nope"]   -> $-1   (nil)
/// ["BLAH"]          -> -ERR unknown command 'BLAH'
/// ```
pub fn dispatch(frame: RespTypes, store: &mut Db) -> (r: RespTypes)
    requires
        frame matches RespTypes::Array(Some(parts)) ==> parts@.len() <= i64::MAX,
    ensures
        r@ == dispatch_outcome(frame@, old(store)@).reply,
        final(store)@ == dispatch_outcome(frame@, old(store)@).db,
{
    let parts = match frame {
        RespTypes::Array(Some(parts)) => parts,
        RespTypes::Array(None) => return error("ERR empty command"),
        _ => return error("ERR expected an array of bulk strings"),
    };
    if parts.len() == 0 {
        return error("ERR empty command");
    }
    let ghost fs = frames_of(parts@);
    proof {
        lemma_frames_of(parts@);
    }
    // Kept as raw bytes: a value may be a JPEG. Only the name must be text.
    let mut args: Vec<Vec<u8>> = Vec::with_capacity(parts.len());
    let mut i: usize = 0;
    while i < parts.len()
        invariant
            i <= parts@.len(),
            fs == frames_of(parts@),
            frame@ == Frame::Array(Some(fs)),
            fs.len() == parts@.len(),
            forall|k: int| 0 <= k < parts@.len() ==> #[trigger] fs[k] == frame_of(parts@[k]),
            args@.len() == i,
            forall|k: int| 0 <= k < i ==> (#[trigger] fs[k] matches Frame::Bulk(Some(b)) && b
                == args@[k]@),
        decreases parts.len() - i,
    {
        match &parts[i] {
            RespTypes::BulkString(Some(bytes)) => args.push(bytes_to_vec(bytes.as_slice())),
            _ => {
                assert(!(fs[i as int] matches Frame::Bulk(Some(_))));
                assert(!all_bulk(fs));
                return error("ERR every element must be a bulk string");
            },
        }
        i = i + 1;
    }
    let ghost a = arg_bytes(args@);
    assert(all_bulk(fs));
    assert(bulk_bytes(fs) =~= a);
    let name_bytes = args.remove(0);
    assert(arg_bytes(args@) =~= a.drop_first());
    let name = match string_from_utf8(name_bytes) {
        Some(text) => to_uppercase(text.as_str()),
        None => return error("ERR command name must be valid UTF-8"),
    };
    execute(name.as_str(), args, store)
}

} // verus!

verus! {

/// The frame a client sends for a command: an array of bulk strings.
pub open spec fn command_frame(words: Seq<Seq<u8>>) -> Frame {
    Frame::Array(Some(crate::resp::wire::bulks(words)))
}

/// A command name: text whose upper-case form is `name`.
pub open spec fn names(bytes: Seq<u8>, name: Seq<char>) -> bool {
    valid_utf8(bytes) && text::upper_case(decode_utf8(bytes)) == name
}

proof fn lemma_command_frame(words: Seq<Seq<u8>>)
    requires
        words.len() > 0,
    ensures
        all_bulk(crate::resp::wire::bulks(words)),
        bulk_bytes(crate::resp::wire::bulks(words)) == words,
{
    assert(bulk_bytes(crate::resp::wire::bulks(words)) =~= words);
}


/// The command names are told apart.
proof fn lemma_command_names_differ()
    ensures
        "PING"@ != "ECHO"@,
        "PING"@ != "SET"@,
        "PING"@ != "GET"@,
        "PING"@ != "DEL"@,
        "PING"@ != "EXISTS"@,
        "PING"@ != "TYPE"@,
        "PING"@ != "MSET"@,
        "PING"@ != "MGET"@,
        "ECHO"@ != "SET"@,
        "ECHO"@ != "GET"@,
        "ECHO"@ != "DEL"@,
        "ECHO"@ != "EXISTS"@,
        "ECHO"@ != "TYPE"@,
        "ECHO"@ != "MSET"@,
        "ECHO"@ != "MGET"@,
        "SET"@ != "GET"@,
        "SET"@ != "DEL"@,
        "SET"@ != "EXISTS"@,
        "SET"@ != "TYPE"@,
        "SET"@ != "MSET"@,
        "SET"@ != "MGET"@,
        "GET"@ != "DEL"@,
        "GET"@ != "EXISTS"@,
        "GET"@ != "TYPE"@,
        "GET"@ != "MSET"@,
        "GET"@ != "MGET"@,
        "DEL"@ != "EXISTS"@,
        "DEL"@ != "TYPE"@,
        "DEL"@ != "MSET"@,
        "DEL"@ != "MGET"@,
        "EXISTS"@ != "TYPE"@,
        "EXISTS"@ != "MSET"@,
        "EXISTS"@ != "MGET"@,
        "TYPE"@ != "MSET"@,
        "TYPE"@ != "MGET"@,
        "MSET"@ != "MGET"@,
{
    reveal_strlit("PING");
    reveal_strlit("ECHO");
    reveal_strlit("SET");
    reveal_strlit("GET");
    reveal_strlit("DEL");
    reveal_strlit("EXISTS");
    reveal_strlit("TYPE");
    reveal_strlit("MSET");
    reveal_strlit("MGET");
    assert("PING"@[0] != "ECHO"@[0]);
    assert("PING"@.len() != "SET"@.len());
    assert("PING"@.len() != "GET"@.len());
    assert("PING"@.len() != "DEL"@.len());
    assert("PING"@.len() != "EXISTS"@.len());
    assert("PING"@[0] != "TYPE"@[0]);
    assert("PING"@[0] != "MSET"@[0]);
    assert("PING"@[0] != "MGET"@[0]);
    assert("ECHO"@.len() != "SET"@.len());
    assert("ECHO"@.len() != "GET"@.len());
    assert("ECHO"@.len() != "DEL"@.len());
    assert("ECHO"@.len() != "EXISTS"@.len());
    assert("ECHO"@[0] != "TYPE"@[0]);
    assert("ECHO"@[0] != "MSET"@[0]);
    assert("ECHO"@[0] != "MGET"@[0]);
    assert("SET"@[0] != "GET"@[0]);
    assert("SET"@[0] != "DEL"@[0]);
    assert("SET"@.len() != "EXISTS"@.len());
    assert("SET"@.len() != "TYPE"@.len());
    assert("SET"@.len() != "MSET"@.len());
    assert("SET"@.len() != "MGET"@.len());
    assert("GET"@[0] != "DEL"@[0]);
    assert("GET"@.len() != "EXISTS"@.len());
    assert("GET"@.len() != "TYPE"@.len());
    assert("GET"@.len() != "MSET"@.len());
    assert("GET"@.len() != "MGET"@.len());
    assert("DEL"@.len() != "EXISTS"@.len());
    assert("DEL"@.len() != "TYPE"@.len());
    assert("DEL"@.len() != "MSET"@.len());
    assert("DEL"@.len() != "MGET"@.len());
    assert("EXISTS"@.len() != "TYPE"@.len());
    assert("EXISTS"@.len() != "MSET"@.len());
    assert("EXISTS"@.len() != "MGET"@.len());
    assert("TYPE"@[0] != "MSET"@[0]);
    assert("TYPE"@[0] != "MGET"@[0]);
    assert("MSET"@[1] != "MGET"@[1]);
}

/// Command names are case-insensitive: two names with the same upper-case
/// form run the same command on the same arguments, with the same reply and
/// the same effect.
pub proof fn law_names_are_case_insensitive(
    name1: Seq<u8>,
    name2: Seq<u8>,
    args: Seq<Seq<u8>>,
    db: Map<Seq<char>, Seq<u8>>,
)
    requires
        valid_utf8(name1),
        valid_utf8(name2),
        text::upper_case(decode_utf8(name1)) == text::upper_case(decode_utf8(name2)),
    ensures
        dispatch_outcome(command_frame(seq![name1] + args), db) == dispatch_outcome(
            command_frame(seq![name2] + args),
            db,
        ),
{
    lemma_command_frame(seq![name1] + args);
    lemma_command_frame(seq![name2] + args);
    assert((seq![name1] + args).drop_first() =~= args);
    assert((seq![name2] + args).drop_first() =~= args);
}

/// `GET` gives back what `SET` stored under the same key, and `SET` replies
/// `+OK`.
pub proof fn law_get_returns_what_set_stored(
    set_name: Seq<u8>,
    get_name: Seq<u8>,
    key: Seq<u8>,
    value: Seq<u8>,
    db: Map<Seq<char>, Seq<u8>>,
)
    requires
        names(set_name, "SET"@),
        names(get_name, "GET"@),
        valid_utf8(key),
    ensures
        ({
            let after_set = dispatch_outcome(command_frame(seq![set_name, key, value]), db);
            let after_get = dispatch_outcome(command_frame(seq![get_name, key]), after_set.db);
            &&& after_set.reply == ok_reply()
            &&& after_get.reply == Frame::Bulk(Some(value))
            &&& after_get.db == after_set.db
        }),
{
    lemma_command_names_differ();
    lemma_command_frame(seq![set_name, key, value]);
    lemma_command_frame(seq![get_name, key]);
    assert(seq![set_name, key, value].drop_first() =~= seq![key, value]);
    assert(seq![get_name, key].drop_first() =~= seq![key]);
    let db2 = db.insert(decode_utf8(key), value);
    assert(dispatch_outcome(command_frame(seq![get_name, key]), db2) == outcome(lookup(db2, decode_utf8(key)), db2));
}

/// After `DEL key`, `GET key` is nil; `DEL` replies 1 when the key was there
/// and 0 when it was not.
pub proof fn law_del_then_get_is_nil(
    del_name: Seq<u8>,
    get_name: Seq<u8>,
    key: Seq<u8>,
    db: Map<Seq<char>, Seq<u8>>,
)
    requires
        names(del_name, "DEL"@),
        names(get_name, "GET"@),
        valid_utf8(key),
    ensures
        ({
            let after_del = dispatch_outcome(command_frame(seq![del_name, key]), db);
            let after_get = dispatch_outcome(command_frame(seq![get_name, key]), after_del.db);
            &&& after_del.reply == Frame::Integer(
                if db.contains_key(decode_utf8(key)) {
                    1
                } else {
                    0
                },
            )
            &&& after_del.db == db.remove(decode_utf8(key))
            &&& after_get.reply == Frame::Bulk(None)
        }),
{
    lemma_command_names_differ();
    lemma_command_frame(seq![del_name, key]);
    lemma_command_frame(seq![get_name, key]);
    assert(seq![del_name, key].drop_first() =~= seq![key]);
    assert(seq![get_name, key].drop_first() =~= seq![key]);
    assert(seq![key].drop_last() =~= Seq::<Seq<u8>>::empty());
    let k = decode_utf8(key);
    assert(delete_keys(Seq::<Seq<u8>>::empty(), db) == (0int, db));
    assert(seq![key].last() == key);
    if !db.contains_key(k) {
        assert(db.remove(k) =~= db);
    }
    assert(delete_keys(seq![key], db) == (if db.contains_key(k) {
        (1int, db.remove(k))
    } else {
        (0int, db)
    }));
}

/// `EXISTS` counts a key as often as it is named: `EXISTS k k` on a stored
/// key is 2.
pub proof fn law_exists_counts_repeats(
    exists_name: Seq<u8>,
    key: Seq<u8>,
    db: Map<Seq<char>, Seq<u8>>,
)
    requires
        names(exists_name, "EXISTS"@),
        valid_utf8(key),
        db.contains_key(decode_utf8(key)),
    ensures
        dispatch_outcome(command_frame(seq![exists_name, key, key]), db) == outcome(
            Frame::Integer(2),
            db,
        ),
{
    lemma_command_names_differ();
    lemma_command_frame(seq![exists_name, key, key]);
    assert(seq![exists_name, key, key].drop_first() =~= seq![key, key]);
    assert(seq![key, key].drop_last() =~= seq![key]);
    assert(seq![key].drop_last() =~= Seq::<Seq<u8>>::empty());
    assert(count_present(Seq::<Seq<u8>>::empty(), db) == 0);
    assert(count_present(seq![key], db) == 1);
    assert(seq![key, key].last() == key);
    assert(count_present(seq![key, key], db) == 2);
}

/// `MSET` is all or nothing: when any of its keys is not text, it replies
/// with an error and stores nothing.
pub proof fn law_mset_is_all_or_nothing(
    mset_name: Seq<u8>,
    args: Seq<Seq<u8>>,
    j: int,
    db: Map<Seq<char>, Seq<u8>>,
)
    requires
        names(mset_name, "MSET"@),
        args.len() % 2 == 0,
        0 <= j < args.len() / 2,
        !valid_utf8(args[2 * j]),
    ensures
        dispatch_outcome(command_frame(seq![mset_name] + args), db) == outcome(
            bad_key_error(),
            db,
        ),
{
    lemma_command_names_differ();
    lemma_command_frame(seq![mset_name] + args);
    assert((seq![mset_name] + args).drop_first() =~= args);
    assert(!pair_keys_valid(args));
}

/// `MGET` replies with one slot per key, in the order asked: the stored bytes
/// or nil.
pub proof fn law_mget_has_one_slot_per_key(
    mget_name: Seq<u8>,
    keys: Seq<Seq<u8>>,
    db: Map<Seq<char>, Seq<u8>>,
)
    requires
        names(mget_name, "MGET"@),
        keys.len() > 0,
    ensures
        ({
            let o = dispatch_outcome(command_frame(seq![mget_name] + keys), db);
            &&& o.db == db
            &&& o.reply matches Frame::Array(Some(slots)) && slots.len() == keys.len() && (
            forall|i: int| 0 <= i < keys.len() ==> #[trigger] slots[i] == mget_item(keys[i], db))
        }),
{
    lemma_command_names_differ();
    lemma_command_frame(seq![mget_name] + keys);
    assert((seq![mget_name] + keys).drop_first() =~= keys);
}

/// A frame that is not a non-empty array of bulk strings is answered with an
/// error frame, never anything else, and changes nothing.
pub proof fn law_malformed_frames_change_nothing(frame: Frame, db: Map<Seq<char>, Seq<u8>>)
    requires
        !(frame matches Frame::Array(Some(parts)) && parts.len() > 0 && all_bulk(parts)),
    ensures
        dispatch_outcome(frame, db).reply is Error,
        dispatch_outcome(frame, db).db == db,
{
}

/// Only `SET`, `DEL` and `MSET` change the keyspace: every other command, and
/// every error, leaves it as it was.
pub proof fn law_only_writes_change_the_keyspace(frame: Frame, db: Map<Seq<char>, Seq<u8>>)
    requires
        !(frame matches Frame::Array(Some(parts)) && parts.len() > 0 && all_bulk(parts) && valid_utf8(
            bulk_bytes(parts)[0],
        ) && ({
            let name = text::upper_case(decode_utf8(bulk_bytes(parts)[0]));
            name == "SET"@ || name == "DEL"@ || name == "MSET"@
        })),
    ensures
        dispatch_outcome(frame, db).db == db,
{
}

/// The keys that the arguments name: each argument that is text, decoded.
pub open spec fn text_keys(args: Seq<Seq<u8>>) -> Set<Seq<char>> {
    Set::new(
        |k: Seq<char>|
            exists|i: int| 0 <= i < args.len() && valid_utf8(args[i]) && decode_utf8(args[i]) == k,
    )
}

/// Whether an argument names a key that is there.
pub open spec fn names_present_key(db: Map<Seq<char>, Seq<u8>>) -> spec_fn(Seq<u8>) -> bool {
    |a: Seq<u8>| valid_utf8(a) && db.contains_key(decode_utf8(a))
}

/// The keys named by all arguments are those named by all but the last, and
/// the last one's when it is text.
proof fn lemma_text_keys_push(args: Seq<Seq<u8>>)
    requires
        args.len() > 0,
    ensures
        text_keys(args) == (if valid_utf8(args.last()) {
            text_keys(args.drop_last()).insert(decode_utf8(args.last()))
        } else {
            text_keys(args.drop_last())
        }),
{
    let front = args.drop_last();
    let want = if valid_utf8(args.last()) {
        text_keys(front).insert(decode_utf8(args.last()))
    } else {
        text_keys(front)
    };
    assert forall|k: Seq<char>| text_keys(args).contains(k) implies want.contains(k) by {
        let i = choose|i: int|
            0 <= i < args.len() && valid_utf8(args[i]) && decode_utf8(args[i]) == k;
        if i < args.len() - 1 {
            assert(front[i] == args[i]);
        }
    }
    assert forall|k: Seq<char>| want.contains(k) implies text_keys(args).contains(k) by {
        if text_keys(front).contains(k) {
            let i = choose|i: int|
                0 <= i < front.len() && valid_utf8(front[i]) && decode_utf8(front[i]) == k;
            assert(args[i] == front[i]);
        } else {
            assert(args[args.len() - 1] == args.last());
        }
    }
    assert(text_keys(args) =~= want);
}

/// Deleting keys one after another removes every key the arguments name,
/// and counts each of them that was there once.
proof fn lemma_delete_keys(args: Seq<Seq<u8>>, db: Map<Seq<char>, Seq<u8>>)
    requires
        db.dom().finite(),
    ensures
        delete_keys(args, db).0 == db.dom().intersect(text_keys(args)).len(),
        delete_keys(args, db).1 == db.remove_keys(text_keys(args)),
    decreases args.len(),
{
    let ks = text_keys(args);
    if args.len() == 0 {
        assert(db.dom().intersect(ks) =~= Set::<Seq<char>>::empty());
        assert(db.remove_keys(ks) =~= db);
    } else {
        let front = args.drop_last();
        let kf = text_keys(front);
        lemma_delete_keys(front, db);
        lemma_text_keys_push(args);
        vstd::set::axiom_set_intersect_finite(db.dom(), kf);
        let k = args.last();
        if valid_utf8(k) {
            let dk = decode_utf8(k);
            if db.contains_key(dk) && !kf.contains(dk) {
                assert(db.dom().intersect(ks) =~= db.dom().intersect(kf).insert(dk));
                vstd::set::axiom_set_insert_len(db.dom().intersect(kf), dk);
            } else {
                assert(db.dom().intersect(ks) =~= db.dom().intersect(kf));
            }
            assert(db.remove_keys(ks) =~= db.remove_keys(kf).remove(dk));
        } else {
            assert(db.remove_keys(ks) =~= db.remove_keys(kf));
        }
    }
}

/// Counting, one argument after another, the arguments that name a key that
/// is there is the number of such arguments.
proof fn lemma_count_present(args: Seq<Seq<u8>>, db: Map<Seq<char>, Seq<u8>>)
    ensures
        count_present(args, db) == args.filter(names_present_key(db)).len(),
    decreases args.len(),
{
    reveal(Seq::filter);
    if args.len() > 0 {
        lemma_count_present(args.drop_last(), db);
    }
}

/// `DEL` removes every key its arguments name and replies with how many of
/// those keys were there, each counted once however often it is named;
/// missing keys and arguments that are not text count nothing.
pub proof fn law_del_removes_each_named_key_once(
    del_name: Seq<u8>,
    keys: Seq<Seq<u8>>,
    db: Map<Seq<char>, Seq<u8>>,
)
    requires
        names(del_name, "DEL"@),
        keys.len() > 0,
        db.dom().finite(),
    ensures
        dispatch_outcome(command_frame(seq![del_name] + keys), db) == outcome(
            Frame::Integer(db.dom().intersect(text_keys(keys)).len() as int),
            db.remove_keys(text_keys(keys)),
        ),
{
    lemma_command_names_differ();
    lemma_command_frame(seq![del_name] + keys);
    assert((seq![del_name] + keys).drop_first() =~= keys);
    lemma_delete_keys(keys, db);
}

/// `EXISTS` replies with how many of its arguments name a key that is there,
/// a key named twice counting twice, and changes nothing.
pub proof fn law_exists_counts_each_argument(
    exists_name: Seq<u8>,
    keys: Seq<Seq<u8>>,
    db: Map<Seq<char>, Seq<u8>>,
)
    requires
        names(exists_name, "EXISTS"@),
        keys.len() > 0,
    ensures
        dispatch_outcome(command_frame(seq![exists_name] + keys), db) == outcome(
            Frame::Integer(keys.filter(names_present_key(db)).len() as int),
            db,
        ),
{
    lemma_command_names_differ();
    lemma_command_frame(seq![exists_name] + keys);
    assert((seq![exists_name] + keys).drop_first() =~= keys);
    lemma_count_present(keys, db);
}

/// Whether a key/value pair other than the last to name its key comes
/// after pair `j`: `j` is the last pair that names its key.
pub open spec fn last_pair_for_its_key(args: Seq<Seq<u8>>, j: int) -> bool {
    &&& 0 <= j < args.len() / 2
    &&& forall|l: int|
        j < l < args.len() / 2 ==> decode_utf8(#[trigger] args[2 * l]) != decode_utf8(args[2 * j])
}

/// Whether some key/value pair names the key `k`.
pub open spec fn named_by_a_pair(args: Seq<Seq<u8>>, k: Seq<char>) -> bool {
    exists|j: int| 0 <= j < args.len() / 2 && decode_utf8(#[trigger] args[2 * j]) == k
}

/// Storing pairs one after another: each key holds the value of its last
/// pair, and every key no pair names keeps what it held.
proof fn lemma_store_pairs(args: Seq<Seq<u8>>, db: Map<Seq<char>, Seq<u8>>)
    requires
        args.len() % 2 == 0,
    ensures
        forall|j: int|
            #[trigger] last_pair_for_its_key(args, j) ==> store_pairs(args, db).contains_key(
                decode_utf8(args[2 * j]),
            ) && store_pairs(args, db)[decode_utf8(args[2 * j])] == args[2 * j + 1],
        forall|k: Seq<char>|
            !#[trigger] named_by_a_pair(args, k) ==> store_pairs(args, db).contains_key(k)
                == db.contains_key(k) && (db.contains_key(k) ==> store_pairs(args, db)[k]
                == db[k]),
    decreases args.len(),
{
    if args.len() >= 2 {
        let n = args.len() / 2;
        let p = args.take(args.len() - 2);
        assert(p.len() % 2 == 0);
        assert(p.len() / 2 == n - 1);
        lemma_store_pairs(p, db);
        let dk = decode_utf8(args[args.len() - 2]);
        assert(args.len() == 2 * n);
        assert(args[2 * (n - 1)] == args[args.len() - 2]);
        assert(args[2 * (n - 1) + 1] == args[args.len() - 1]);
        assert(store_pairs(args, db) == store_pairs(p, db).insert(dk, args[args.len() - 1]));
        assert forall|j: int| #[trigger] last_pair_for_its_key(args, j) implies store_pairs(
            args,
            db,
        ).contains_key(decode_utf8(args[2 * j])) && store_pairs(args, db)[decode_utf8(
            args[2 * j],
        )] == args[2 * j + 1] by {
            if j < n - 1 {
                assert(decode_utf8(args[2 * (n - 1)]) != decode_utf8(args[2 * j]));
                assert(p[2 * j] == args[2 * j]);
                assert(p[2 * j + 1] == args[2 * j + 1]);
                assert forall|l: int| j < l < p.len() / 2 implies decode_utf8(#[trigger] p[2 * l])
                    != decode_utf8(p[2 * j]) by {
                    assert(p[2 * l] == args[2 * l]);
                    assert(decode_utf8(args[2 * l]) != decode_utf8(args[2 * j]));
                }
                assert(last_pair_for_its_key(p, j));
            }
        }
        assert forall|k: Seq<char>| !#[trigger] named_by_a_pair(args, k) implies store_pairs(
            args,
            db,
        ).contains_key(k) == db.contains_key(k) && (db.contains_key(k) ==> store_pairs(args, db)[k]
            == db[k]) by {
            if decode_utf8(args[2 * (n - 1)]) == k {
                assert(named_by_a_pair(args, k));
            }
            assert(dk != k);
            if named_by_a_pair(p, k) {
                let j = choose|j: int| 0 <= j < p.len() / 2 && decode_utf8(#[trigger] p[2 * j]) == k;
                assert(p[2 * j] == args[2 * j]);
                assert(named_by_a_pair(args, k));
            }
        }
    }
}

/// `MSET` with whole pairs of text keys replies `+OK` and stores every pair,
/// overwriting what was there: afterwards each key it names holds the value
/// of the last pair that names it, and every other key is untouched.
pub proof fn law_mset_stores_every_pair(
    mset_name: Seq<u8>,
    args: Seq<Seq<u8>>,
    db: Map<Seq<char>, Seq<u8>>,
)
    requires
        names(mset_name, "MSET"@),
        args.len() > 0,
        args.len() % 2 == 0,
        forall|j: int| 0 <= j < args.len() / 2 ==> #[trigger] valid_utf8(args[2 * j]),
    ensures
        ({
            let o = dispatch_outcome(command_frame(seq![mset_name] + args), db);
            &&& o.reply == Frame::Simple("OK"@)
            &&& forall|j: int|
                #[trigger] last_pair_for_its_key(args, j) ==> o.db.contains_key(
                    decode_utf8(args[2 * j]),
                ) && o.db[decode_utf8(args[2 * j])] == args[2 * j + 1]
            &&& forall|k: Seq<char>|
                !#[trigger] named_by_a_pair(args, k) ==> o.db.contains_key(k) == db.contains_key(k)
                    && (db.contains_key(k) ==> o.db[k] == db[k])
        }),
{
    lemma_command_names_differ();
    lemma_command_frame(seq![mset_name] + args);
    assert((seq![mset_name] + args).drop_first() =~= args);
    assert(pair_keys_valid(args));
    lemma_store_pairs(args, db);
}

/// `MGET` gives one slot per key, in order: the bytes stored under the key,
/// whatever they are, or nil when the key is missing or not text; it changes
/// nothing.
pub proof fn law_mget_reads_each_key(
    mget_name: Seq<u8>,
    keys: Seq<Seq<u8>>,
    db: Map<Seq<char>, Seq<u8>>,
)
    requires
        names(mget_name, "MGET"@),
        keys.len() > 0,
    ensures
        ({
            let o = dispatch_outcome(command_frame(seq![mget_name] + keys), db);
            &&& o.db == db
            &&& o.reply matches Frame::Array(Some(items))
            &&& o.reply->Array_0->Some_0.len() == keys.len()
            &&& forall|i: int|
                0 <= i < keys.len() ==> o.reply->Array_0->Some_0[i] == if valid_utf8(
                    #[trigger] keys[i],
                ) && db.contains_key(decode_utf8(keys[i])) {
                    Frame::Bulk(Some(db[decode_utf8(keys[i])]))
                } else {
                    Frame::Bulk(None)
                }
        }),
{
    lemma_command_names_differ();
    lemma_command_frame(seq![mget_name] + keys);
    assert((seq![mget_name] + keys).drop_first() =~= keys);
}

/// Each slot of an `MGET` is exactly what `GET` of that key replies.
pub proof fn law_mget_slot_is_what_get_replies(
    mget_name: Seq<u8>,
    get_name: Seq<u8>,
    keys: Seq<Seq<u8>>,
    i: int,
    db: Map<Seq<char>, Seq<u8>>,
)
    requires
        names(mget_name, "MGET"@),
        names(get_name, "GET"@),
        0 <= i < keys.len(),
        valid_utf8(keys[i]),
    ensures
        dispatch_outcome(command_frame(seq![mget_name] + keys), db).reply->Array_0->Some_0[i]
            == dispatch_outcome(command_frame(seq![get_name, keys[i]]), db).reply,
{
    law_mget_reads_each_key(mget_name, keys, db);
    lemma_command_names_differ();
    lemma_command_frame(seq![get_name, keys[i]]);
    assert(seq![get_name, keys[i]].drop_first() =~= seq![keys[i]]);
    assert(seq![keys[i]][0] == keys[i]);
}

/// `TYPE` of a text key replies `+string` when the key is there, whatever
/// bytes it holds, and `+none` when it is not; it changes nothing.
pub proof fn law_type_is_string_or_none(cmd: Seq<u8>, key: Seq<u8>, db: Map<Seq<char>, Seq<u8>>)
    requires
        names(cmd, "TYPE"@),
        valid_utf8(key),
    ensures
        dispatch_outcome(command_frame(seq![cmd, key]), db) == outcome(
            if db.contains_key(decode_utf8(key)) {
                Frame::Simple("string"@)
            } else {
                Frame::Simple("none"@)
            },
            db,
        ),
{
    lemma_command_names_differ();
    lemma_command_frame(seq![cmd, key]);
    assert(seq![cmd, key].drop_first() =~= seq![key]);
}

/// `ECHO` of one argument replies with a bulk string of exactly its bytes,
/// whatever they are, and changes nothing.
pub proof fn law_echo_gives_back_its_argument(
    cmd: Seq<u8>,
    message: Seq<u8>,
    db: Map<Seq<char>, Seq<u8>>,
)
    requires
        names(cmd, "ECHO"@),
    ensures
        dispatch_outcome(command_frame(seq![cmd, message]), db) == outcome(
            Frame::Bulk(Some(message)),
            db,
        ),
{
    lemma_command_names_differ();
    lemma_command_frame(seq![cmd, message]);
    assert(seq![cmd, message].drop_first() =~= seq![message]);
}

/// `PING` alone replies `+PONG`; `PING` of one argument replies with a bulk
/// string of exactly its bytes. Neither changes anything.
pub proof fn law_ping_answers_pong_or_its_argument(
    cmd: Seq<u8>,
    message: Seq<u8>,
    db: Map<Seq<char>, Seq<u8>>,
)
    requires
        names(cmd, "PING"@),
    ensures
        dispatch_outcome(command_frame(seq![cmd]), db) == outcome(Frame::Simple("PONG"@), db),
        dispatch_outcome(command_frame(seq![cmd, message]), db) == outcome(
            Frame::Bulk(Some(message)),
            db,
        ),
{
    lemma_command_frame(seq![cmd]);
    lemma_command_frame(seq![cmd, message]);
    assert(seq![cmd].drop_first() =~= Seq::<Seq<u8>>::empty());
    assert(seq![cmd, message].drop_first() =~= seq![message]);
}

} // verus!
