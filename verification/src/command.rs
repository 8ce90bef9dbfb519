//! The stateless command layer: `PING` and `ECHO`, with every argument taken
//! as text.
use crate::resp::parser::{frame_of, frames_of, lemma_frames_of, RespTypes};
use crate::resp::wire::Frame;
use crate::text::{self, bytes_to_vec, string_from_utf8, text_eq, to_uppercase};
use vstd::prelude::*;
use vstd::string::*;
use vstd::utf8::*;

verus! {

broadcast use vstd::utf8::group_utf8_lib, vstd::std_specs::vec::group_vec_axioms;

/// The complaint about the first element that is not usable text: not a
/// bulk string, or bytes that are not UTF-8. `None` when every element is.
pub open spec fn first_bad_part(parts: Seq<Frame>) -> Option<Seq<char>>
    decreases parts.len(),
{
    if parts.len() == 0 {
        None
    } else {
        match parts[0] {
            Frame::Bulk(Some(b)) => if valid_utf8(b) {
                first_bad_part(parts.drop_first())
            } else {
                Some("Command names and arguments must be valid UTF-8"@)
            },
            _ => Some("Every element must be a bulk string"@),
        }
    }
}

/// The text of each element.
pub open spec fn part_texts(parts: Seq<Frame>) -> Seq<Seq<char>> {
    Seq::new(parts.len(), |i: int| decode_utf8(parts[i]->Bulk_0->Some_0))
}

/// The reply to a `PING` or `ECHO` with these argument texts.
pub open spec fn named_reply(name: Seq<char>, args: Seq<Seq<char>>) -> Frame {
    if name == "PING"@ {
        if args.len() == 0 {
            Frame::Simple("PONG"@)
        } else if args.len() == 1 {
            Frame::Bulk(Some(encode_utf8(args[0])))
        } else {
            Frame::Error("wrong number of arguments for 'ping' command"@)
        }
    } else if name == "ECHO"@ {
        if args.len() == 1 {
            Frame::Bulk(Some(encode_utf8(args[0])))
        } else {
            Frame::Error("wrong number of arguments for 'echo' command"@)
        }
    } else {
        Frame::Error("unknown command '"@ + name + "'"@)
    }
}

/// The frame sent back for a frame a client sent.
pub open spec fn command_reply(frame: Frame) -> Frame {
    match frame {
        Frame::Array(Some(parts)) => if parts.len() == 0 {
            Frame::Error("Empty"@)
        } else {
            match first_bad_part(parts) {
                Some(message) => Frame::Error(message),
                None => named_reply(
                    text::upper_case(part_texts(parts)[0]),
                    part_texts(parts).drop_first(),
                ),
            }
        },
        _ => Frame::Error("Resp always sends array as input"@),
    }
}

fn error(message: &str) -> (r: RespTypes)
    ensures
        r@ == Frame::Error(message@),
{
    RespTypes::Error(String::from_str(message))
}

/// Pulls the text out of a bulk string; `None` if the bytes are not UTF-8.
fn bulk_to_string(frame: &[u8]) -> (r: Option<String>)
    ensures
        r is Some <==> valid_utf8(frame@),
        r matches Some(s) ==> s@ == decode_utf8(frame@),
{
    string_from_utf8(bytes_to_vec(frame))
}

/// The bytes of a text, as a bulk string reply.
fn text_reply(s: &String) -> (r: RespTypes)
    ensures
        r@ == Frame::Bulk(Some(encode_utf8(s@))),
{
    RespTypes::BulkString(Some(bytes_to_vec(s.as_str().as_bytes())))
}

/// The text of each string.
pub open spec fn texts_of(args: Seq<String>) -> Seq<Seq<char>> {
    Seq::new(args.len(), |i: int| args[i]@)
}

/// The reply to the command whose upper-case name is `name`, with these
/// argument texts.
pub fn reply_named(name: &str, args: &Vec<String>) -> (r: RespTypes)
    ensures
        r@ == named_reply(name@, texts_of(args@)),
{
    let n = args.len();
    if text_eq(name, "PING") {
        if n == 0 {
            RespTypes::SimpleString(String::from_str("PONG"))
        } else if n == 1 {
            text_reply(&args[0])
        } else {
            error("wrong number of arguments for 'ping' command")
        }
    } else if text_eq(name, "ECHO") {
        if n == 1 {
            text_reply(&args[0])
        } else {
            error("wrong number of arguments for 'echo' command")
        }
    } else {
        let mut message = String::from_str("unknown command '");
        message.append(name);
        message.append("'");
        RespTypes::Error(message)
    }
}

/// Turns a frame the client sent into the frame to send back.
///
/// Clients send an array of bulk strings: element 0 is the command name, the
/// rest are its arguments. Anything else is a client mistake, answered with
/// an error frame.
pub fn dispatch(frame: RespTypes) -> (r: RespTypes)
    ensures
        r@ == command_reply(frame@),
{
    let parts = match frame {
        RespTypes::Array(Some(parts)) => {
            if parts.len() > 0 {
                parts
            } else {
                return error("Empty");
            }
        },
        _ => {
            return error("Resp always sends array as input");
        },
    };
    let ghost fs = frames_of(parts@);
    proof {
        lemma_frames_of(parts@);
        assert(fs.skip(0) =~= fs);
    }
    // Every element has to be usable text before any of them is looked at.
    let mut args: Vec<String> = Vec::new();
    let mut i: usize = 0;
    while i < parts.len()
        invariant
            i <= parts@.len(),
            fs == frames_of(parts@),
            frame@ == Frame::Array(Some(fs)),
            fs.len() == parts@.len(),
            forall|k: int| 0 <= k < parts@.len() ==> #[trigger] fs[k] == frame_of(parts@[k]),
            first_bad_part(fs) == first_bad_part(fs.skip(i as int)),
            args@.len() == i,
            forall|k: int|
                0 <= k < i ==> (#[trigger] fs[k] matches Frame::Bulk(Some(b)) && valid_utf8(b)
                    && args@[k]@ == decode_utf8(b)),
        decreases parts.len() - i,
    {
        let ghost rest = fs.skip(i as int);
        assert(rest[0] == fs[i as int]);
        assert(rest.drop_first() =~= fs.skip(i + 1));
        match &parts[i] {
            RespTypes::BulkString(Some(bytes)) => match bulk_to_string(bytes.as_slice()) {
                Some(text) => args.push(text),
                None => return error("Command names and arguments must be valid UTF-8"),
            },
            _ => return error("Every element must be a bulk string"),
        }
        i = i + 1;
    }
    proof {
        assert(fs.skip(i as int) =~= Seq::<Frame>::empty());
        let texts = part_texts(fs);
        assert forall|k: int| 0 <= k < args@.len() implies #[trigger] args@[k]@ == texts[k] by {
            assert(fs[k] matches Frame::Bulk(Some(_)));
        }
    }
    let ghost texts = part_texts(fs);
    let first = args.remove(0);
    let name = to_uppercase(first.as_str());
    assert(name@ == text::upper_case(texts[0]));
    assert(args@.len() == texts.drop_first().len());
    assert forall|k: int| 0 <= k < args@.len() implies #[trigger] args@[k]@ == texts.drop_first()[k] by {}
    assert(texts_of(args@) =~= texts.drop_first());
    reply_named(name.as_str(), &args)
}

} // verus!

verus! {

/// Command names are case-insensitive: two frames that differ only in the
/// spelling of the name, with the same upper-case form, get the same reply.
pub proof fn law_names_are_case_insensitive(name1: Seq<u8>, name2: Seq<u8>, args: Seq<Frame>)
    requires
        valid_utf8(name1),
        valid_utf8(name2),
        text::upper_case(decode_utf8(name1)) == text::upper_case(decode_utf8(name2)),
    ensures
        command_reply(Frame::Array(Some(seq![Frame::Bulk(Some(name1))] + args))) == command_reply(
            Frame::Array(Some(seq![Frame::Bulk(Some(name2))] + args)),
        ),
{
    let p1 = seq![Frame::Bulk(Some(name1))] + args;
    let p2 = seq![Frame::Bulk(Some(name2))] + args;
    assert(p1.drop_first() =~= args);
    assert(p2.drop_first() =~= args);
    assert(part_texts(p1).drop_first() =~= part_texts(p2).drop_first());
}

} // verus!
