//! Reading RESP2 frames out of a byte buffer.
//!
//! Every reader takes the buffer and a cursor, reads one thing at the cursor
//! and moves the cursor past it. What each one returns, and where it leaves
//! the cursor, is the corresponding reading in `wire`.
use crate::resp::wire::{self, Failure, Frame};
use crate::resp::inline::{byte_strings, split_inline};
use crate::text::{self, bytes_to_vec, parse_i64, parse_usize, push_char, string_from_utf8};
use vstd::prelude::*;
use vstd::slice::slice_subrange;
use vstd::string::*;
use vstd::utf8::*;

verus! {

broadcast use vstd::utf8::group_utf8_lib, vstd::std_specs::vec::group_vec_axioms;

/// A single decoded RESP2 value: the result of parsing, not the raw bytes.
///
/// Only `BulkString` and `Array` are `Option`, because those are the only two
/// types RESP gives a null form: `$-1\r\n` and `*-1\r\n`.
#[derive(Debug, PartialEq)]
pub enum RespTypes {
    SimpleString(String),
    Error(String),
    Integer(i64),
    /// Raw bytes, not text: values are binary-safe.
    BulkString(Option<Vec<u8>>),
    /// An array holds other frames, including more arrays.
    Array(Option<Vec<RespTypes>>),
}

/// Why the parser could not produce a `RespTypes`.
#[derive(Debug, PartialEq)]
pub enum ParseError {
    /// The rest of the message has not arrived yet: read more and retry.
    Incomplete,
    /// The bytes are not valid RESP.
    Protocol(String),
}

/// The frame a value stands for.
pub open spec fn frame_of(r: RespTypes) -> Frame
    decreases r, 0int,
{
    match r {
        RespTypes::SimpleString(s) => Frame::Simple(s@),
        RespTypes::Error(s) => Frame::Error(s@),
        RespTypes::Integer(n) => Frame::Integer(n as int),
        RespTypes::BulkString(None) => Frame::Bulk(None),
        RespTypes::BulkString(Some(b)) => Frame::Bulk(Some(b@)),
        RespTypes::Array(None) => Frame::Array(None),
        RespTypes::Array(Some(v)) => Frame::Array(Some(frames_of(v@))),
    }
}

/// The frames a sequence of values stands for.
pub open spec fn frames_of(s: Seq<RespTypes>) -> Seq<Frame>
    decreases s, 1int,
{
    if s.len() == 0 {
        Seq::empty()
    } else {
        frames_of(s.drop_last()).push(frame_of(s.last()))
    }
}

impl View for RespTypes {
    type V = Frame;

    open spec fn view(&self) -> Frame {
        frame_of(*self)
    }
}

impl View for ParseError {
    type V = Failure;

    open spec fn view(&self) -> Failure {
        match self {
            ParseError::Incomplete => Failure::Incomplete,
            ParseError::Protocol(s) => Failure::Protocol(s@),
        }
    }
}

/// A parse result as the contracts speak of it.
pub open spec fn result_view(r: Result<RespTypes, ParseError>) -> Result<Frame, Failure> {
    match r {
        Ok(v) => Ok(v@),
        Err(e) => Err(e@),
    }
}

pub proof fn lemma_frames_of(s: Seq<RespTypes>)
    ensures
        frames_of(s).len() == s.len(),
        forall|i: int| 0 <= i < s.len() ==> #[trigger] frames_of(s)[i] == frame_of(s[i]),
    decreases s.len(),
{
    if s.len() > 0 {
        lemma_frames_of(s.drop_last());
        assert forall|i: int| 0 <= i < s.len() implies #[trigger] frames_of(s)[i] == frame_of(
            s[i],
        ) by {
            if i < s.len() - 1 {
                assert(s.drop_last()[i] == s[i]);
            }
        }
    }
}

pub proof fn lemma_frames_of_push(s: Seq<RespTypes>, x: RespTypes)
    ensures
        frames_of(s.push(x)) == frames_of(s).push(frame_of(x)),
{
    assert(s.push(x).drop_last() =~= s);
}

/// `first_cr` finds the first `\r` at or after `i`.
pub proof fn lemma_first_cr(buf: Seq<u8>, i: int)
    requires
        0 <= i,
    ensures
        i <= wire::first_cr(buf, i),
        i < buf.len() ==> wire::first_cr(buf, i) <= buf.len(),
        i >= buf.len() ==> wire::first_cr(buf, i) == i,
        wire::first_cr(buf, i) < buf.len() ==> buf[wire::first_cr(buf, i)] == wire::cr_byte(),
        forall|j: int| i <= j < wire::first_cr(buf, i) ==> buf[j] != wire::cr_byte(),
    decreases buf.len() - i,
{
    if i < buf.len() && buf[i] != wire::cr_byte() {
        lemma_first_cr(buf, i + 1);
    }
}

/// A line read at a position holding a marker byte keeps that byte, and the
/// cursor ends inside the buffer, past the line.
pub proof fn lemma_read_line_at(buf: Seq<u8>, pos: int)
    requires
        0 <= pos < buf.len(),
        buf[pos] != wire::cr_byte(),
        wire::read_line_at(buf, pos) is Ok,
    ensures
        ({
            let (line, next) = wire::read_line_at(buf, pos)->Ok_0;
            &&& line.len() >= 1
            &&& line[0] == buf[pos]
            &&& pos + line.len() + 2 == next
            &&& pos < next <= buf.len()
        }),
{
    lemma_first_cr(buf, pos);
}

/// Reading several values never moves the cursor backwards or out of the
/// buffer.
pub proof fn lemma_read_frames_bounds(buf: Seq<u8>, pos: int, count: nat)
    requires
        0 <= pos <= buf.len(),
        wire::read_frames(buf, pos, count) is Ok,
    ensures
        pos <= wire::read_frames(buf, pos, count)->Ok_0.1 <= buf.len(),
        wire::read_frames(buf, pos, count)->Ok_0.0.len() == count,
    decreases count,
{
    if count > 0 {
        let r = wire::read_frame(buf, pos);
        lemma_read_frames_bounds(buf, r.pos, (count - 1) as nat);
    }
}

/// A value that was read ends past where it started and inside the buffer.
pub proof fn lemma_read_frame_advances(buf: Seq<u8>, pos: int)
    requires
        wire::read_frame(buf, pos).result is Ok,
    ensures
        pos < wire::read_frame(buf, pos).pos <= buf.len(),
{
    lemma_first_cr(buf, pos);
    if buf[pos] == 42u8 {
        let (line, next) = wire::read_line_at(buf, pos)->Ok_0;
        let body = line.skip(1);
        if body != wire::minus_one() {
            let n = text::parse_unsigned(body)->Some_0;
            lemma_read_frames_bounds(buf, next, n);
        }
    }
}

/// Reads one line, up to the next `\r\n`.
///
/// `b"+OK\r\n"` gives `b"+OK"` and leaves `pos` at 5. The marker byte is
/// kept. On an error `pos` does not move.
pub fn read_line<'a>(buf: &'a [u8], pos: &mut usize) -> (r: Result<&'a [u8], ParseError>)
    requires
        *old(pos) < usize::MAX,
        buf@.len() < usize::MAX,
    ensures
        match wire::read_line_at(buf@, *old(pos) as int) {
            Ok((line, next)) => r matches Ok(l) && l@ == line && *final(pos) == next,
            Err(e) => r matches Err(err) && err@ == e && *final(pos) == *old(pos),
        },
{
    let mut i = *pos;
    proof {
        lemma_first_cr(buf@, i as int);
    }
    while i < buf.len() && buf[i] != 13u8
        invariant
            *pos <= i,
            *pos < usize::MAX,
            buf@.len() < usize::MAX,
            *pos < buf@.len() ==> i <= buf@.len(),
            *pos >= buf@.len() ==> i == *pos,
            wire::first_cr(buf@, *pos as int) == wire::first_cr(buf@, i as int),
        decreases buf.len() - i,
    {
        i += 1;
    }
    if i + 1 >= buf.len() {
        return Err(ParseError::Incomplete);
    }
    if buf[i + 1] != 10u8 {
        return Err(ParseError::Protocol(String::from_str("expected \\n after \\r")));
    }
    let line = slice_subrange(buf, *pos, i);
    *pos = i + 2;
    Ok(line)
}

/// Reads one line and decodes it without its marker byte.
///
/// `b"+OK\r\n"` gives `"OK"`.
fn parse_line_string(buf: &[u8], pos: &mut usize) -> (r: Result<String, ParseError>)
    requires
        *old(pos) < buf@.len(),
        buf@.len() < usize::MAX,
        buf@[*old(pos) as int] != wire::cr_byte(),
    ensures
        match wire::read_line_at(buf@, *old(pos) as int) {
            Err(e) => r matches Err(err) && err@ == e && *final(pos) == *old(pos),
            Ok((line, next)) => *final(pos) == next && match wire::line_text(line) {
                Ok(s) => r matches Ok(t) && t@ == s,
                Err(e) => r matches Err(err) && err@ == e,
            },
        },
{
    let ghost start = *pos;
    let line = match read_line(buf, pos) {
        Ok(line) => line,
        Err(e) => return Err(e),
    };
    proof {
        lemma_read_line_at(buf@, start as int);
    }
    let body = slice_subrange(line, 1, line.len());
    assert(body@ == line@.skip(1));
    match string_from_utf8(bytes_to_vec(body)) {
        Some(s) => Ok(s),
        None => Err(ParseError::Protocol(String::from_str("invalid UTF-8"))),
    }
}

/// `b"+OK\r\n"` gives `SimpleString("OK")`.
pub fn parse_simple_string(buf: &[u8], pos: &mut usize) -> (r: Result<RespTypes, ParseError>)
    requires
        *old(pos) < buf@.len(),
        buf@.len() < usize::MAX,
        buf@[*old(pos) as int] == 43u8,
    ensures
        result_view(r) == wire::read_text_frame(buf@, *old(pos) as int, false).result,
        *final(pos) == wire::read_text_frame(buf@, *old(pos) as int, false).pos,
{
    match parse_line_string(buf, pos) {
        Ok(s) => Ok(RespTypes::SimpleString(s)),
        Err(e) => Err(e),
    }
}

/// `b"-ERR unknown command\r\n"` gives `Error("ERR unknown command")`.
///
/// This is an error the server sends to a client, not a parse failure:
/// reading it worked, so it comes back as `Ok`.
pub fn parse_error(buf: &[u8], pos: &mut usize) -> (r: Result<RespTypes, ParseError>)
    requires
        *old(pos) < buf@.len(),
        buf@.len() < usize::MAX,
        buf@[*old(pos) as int] == 45u8,
    ensures
        result_view(r) == wire::read_text_frame(buf@, *old(pos) as int, true).result,
        *final(pos) == wire::read_text_frame(buf@, *old(pos) as int, true).pos,
{
    match parse_line_string(buf, pos) {
        Ok(s) => Ok(RespTypes::Error(s)),
        Err(e) => Err(e),
    }
}

/// `b":42\r\n"` gives `Integer(42)`, `b":-1\r\n"` gives `Integer(-1)`.
pub fn parse_integer(buf: &[u8], pos: &mut usize) -> (r: Result<RespTypes, ParseError>)
    requires
        *old(pos) < buf@.len(),
        buf@.len() < usize::MAX,
        buf@[*old(pos) as int] == 58u8,
    ensures
        result_view(r) == wire::read_integer_frame(buf@, *old(pos) as int).result,
        *final(pos) == wire::read_integer_frame(buf@, *old(pos) as int).pos,
{
    let ghost start = *pos;
    let line = match read_line(buf, pos) {
        Ok(line) => line,
        Err(e) => return Err(e),
    };
    proof {
        lemma_read_line_at(buf@, start as int);
    }
    let body = slice_subrange(line, 1, line.len());
    assert(body@ == line@.skip(1));
    if string_from_utf8(bytes_to_vec(body)).is_none() {
        return Err(ParseError::Protocol(String::from_str("invalid UTF-8")));
    }
    match parse_i64(body) {
        Some(n) => Ok(RespTypes::Integer(n)),
        None => Err(ParseError::Protocol(String::from_str("invalid number parsing error"))),
    }
}

/// Whether the body of a length line is `-1`, the null form.
fn is_minus_one(body: &[u8]) -> (r: bool)
    ensures
        r == (body@ == wire::minus_one()),
{
    let r = body.len() == 2 && body[0] == 45u8 && body[1] == 49u8;
    proof {
        if r {
            assert(body@ =~= wire::minus_one());
        }
    }
    r
}

/// `b"$5\r\nhello\r\n"` gives `BulkString(Some(b"hello"))`, `b"$-1\r\n"` gives
/// `BulkString(None)`.
///
/// The payload is taken by length, never by scanning for `\r\n`: the bytes
/// are binary and may hold a `\r\n` of their own.
pub fn parse_bulk_string(buf: &[u8], pos: &mut usize) -> (r: Result<RespTypes, ParseError>)
    requires
        *old(pos) < buf@.len(),
        buf@.len() < usize::MAX,
        buf@[*old(pos) as int] == 36u8,
    ensures
        result_view(r) == wire::read_bulk_frame(buf@, *old(pos) as int).result,
        *final(pos) == wire::read_bulk_frame(buf@, *old(pos) as int).pos,
{
    let frame_start = *pos;
    let line = match read_line(buf, pos) {
        Ok(line) => line,
        Err(e) => return Err(e),
    };
    proof {
        lemma_read_line_at(buf@, frame_start as int);
    }
    let body = slice_subrange(line, 1, line.len());
    assert(body@ == line@.skip(1));
    if is_minus_one(body) {
        return Ok(RespTypes::BulkString(None));
    }
    if string_from_utf8(bytes_to_vec(body)).is_none() {
        return Err(ParseError::Protocol(String::from_str("invalid UTF-8")));
    }
    let length = match parse_usize(body) {
        Some(n) => n,
        None => return Err(ParseError::Protocol(String::from_str("invalid bulk length"))),
    };
    let start = *pos;
    let end = match start.checked_add(length) {
        Some(end) => end,
        None => return Err(ParseError::Protocol(String::from_str("bulk length too large"))),
    };
    if buf.len() < 2 || end > buf.len() - 2 {
        *pos = frame_start;
        return Err(ParseError::Incomplete);
    }
    if buf[end] != 13u8 || buf[end + 1] != 10u8 {
        return Err(ParseError::Protocol(String::from_str("bulk string not terminated by CRLF")));
    }
    *pos = end + 2;
    Ok(RespTypes::BulkString(Some(bytes_to_vec(slice_subrange(buf, start, end)))))
}

/// The outcome of reading values one after another, with `done` already read
/// in front of them.
pub open spec fn after(done: Seq<Frame>, rest: Result<(Seq<Frame>, int), Failure>) -> Result<
    (Seq<Frame>, int),
    Failure,
> {
    match rest {
        Ok((vs, end)) => Ok((done + vs, end)),
        Err(e) => Err(e),
    }
}

/// `b"*2\r\n:1\r\n:2\r\n"` gives `Array(Some([Integer(1), Integer(2)]))`,
/// `b"*-1\r\n"` gives `Array(None)`.
///
/// An array is all-or-nothing: if any element fails, the whole frame fails
/// and `pos` goes back to where the frame started.
pub fn parse_array(buff: &[u8], pos: &mut usize) -> (r: Result<RespTypes, ParseError>)
    requires
        *old(pos) < buff@.len(),
        buff@.len() < usize::MAX,
        buff@[*old(pos) as int] == 42u8,
    ensures
        result_view(r) == wire::read_frame(buff@, *old(pos) as int).result,
        *final(pos) == wire::read_frame(buff@, *old(pos) as int).pos,
    decreases buff@.len() - *old(pos), 0int,
{
    let frame_start = *pos;
    let line = match read_line(buff, pos) {
        Ok(line) => line,
        Err(e) => return Err(e),
    };
    proof {
        lemma_read_line_at(buff@, frame_start as int);
    }
    let body = slice_subrange(line, 1, line.len());
    assert(body@ == line@.skip(1));
    if is_minus_one(body) {
        return Ok(RespTypes::Array(None));
    }
    if string_from_utf8(bytes_to_vec(body)).is_none() {
        return Err(ParseError::Protocol(String::from_str("invalid UTF-8")));
    }
    let count = match parse_usize(body) {
        Some(n) => n,
        None => return Err(ParseError::Protocol(String::from_str("invalid array length"))),
    };
    // Every element takes at least one byte, so a count larger than what is
    // left cannot be met yet; checking first keeps a huge count from
    // reserving memory.
    if count > buff.len() - *pos {
        *pos = frame_start;
        return Err(ParseError::Incomplete);
    }
    let ghost next = *pos as int;
    let ghost total = wire::read_frames(buff@, next, count as nat);
    let mut replies: Vec<RespTypes> = Vec::with_capacity(count);
    let mut i: usize = 0;
    while i < count
        invariant
            i <= count,
            frame_start == *old(pos),
            frame_start < next <= *pos <= buff@.len(),
            buff@.len() < usize::MAX,
            total == wire::read_frames(buff@, next, count as nat),
            total is Err ==> wire::read_frame(buff@, frame_start as int) == wire::reading(
                Err(total->Err_0),
                frame_start as int,
            ),
            total == after(frames_of(replies@), wire::read_frames(buff@, *pos as int, (count - i) as nat)),
        decreases count - i,
    {
        let ghost p = *pos as int;
        let step = parse(buff, pos);
        match step {
            Ok(frame) => {
                proof {
                    lemma_read_frame_advances(buff@, p);
                    lemma_frames_of_push(replies@, frame);
                    let rest = wire::read_frames(buff@, *pos as int, (count - i - 1) as nat);
                    assert(wire::read_frames(buff@, p, (count - i) as nat) == after(seq![frame@], rest));
                    match rest {
                        Ok((vs, e)) => {
                            assert(frames_of(replies@) + (seq![frame@] + vs) =~= frames_of(
                                replies@,
                            ).push(frame@) + vs);
                        },
                        Err(e) => {},
                    }
                }
                replies.push(frame);
            },
            Err(error) => {
                assert(wire::read_frames(buff@, p, (count - i) as nat) == Err::<(Seq<Frame>, int), Failure>(error@));
                *pos = frame_start;
                return Err(error);
            },
        }
        i = i + 1;
    }
    proof {
        assert(frames_of(replies@) + Seq::<Frame>::empty() =~= frames_of(replies@));
    }
    Ok(RespTypes::Array(Some(replies)))
}

/// Reads one RESP value starting at `pos` and moves `pos` past it.
///
/// The first byte says which type it is. Call again with the same `pos` to
/// read the next value.
pub fn parse(buf: &[u8], pos: &mut usize) -> (r: Result<RespTypes, ParseError>)
    requires
        buf@.len() < usize::MAX,
    ensures
        result_view(r) == wire::read_frame(buf@, *old(pos) as int).result,
        *final(pos) == wire::read_frame(buf@, *old(pos) as int).pos,
    decreases buf@.len() - *old(pos), 1int,
{
    if *pos >= buf.len() {
        return Err(ParseError::Incomplete);
    }
    let marker = buf[*pos];
    if marker == 43u8 {
        parse_simple_string(buf, pos)
    } else if marker == 45u8 {
        parse_error(buf, pos)
    } else if marker == 58u8 {
        parse_integer(buf, pos)
    } else if marker == 36u8 {
        parse_bulk_string(buf, pos)
    } else if marker == 42u8 {
        parse_array(buf, pos)
    } else {
        Err(ParseError::Protocol(String::from_str("unknown RESP type")))
    }
}

} // verus!


verus! {

/// The outcome of reading arguments one after another, with `done` already
/// read in front of them.
pub open spec fn after_args(done: Seq<Seq<u8>>, rest: Result<(Seq<Seq<u8>>, int), Failure>) -> Result<
    (Seq<Seq<u8>>, int),
    Failure,
> {
    match rest {
        Ok((vs, end)) => Ok((done + vs, end)),
        Err(e) => Err(e),
    }
}

/// A line read for a command ends past where it starts and inside the
/// buffer, and holds no more bytes than the buffer.
pub proof fn lemma_command_line(buf: Seq<u8>, pos: int, too_big: Seq<char>)
    requires
        0 <= pos < buf.len(),
        wire::read_command_line(buf, pos, too_big) is Ok,
    ensures
        ({
            let (line, next) = wire::read_command_line(buf, pos, too_big)->Ok_0;
            &&& wire::read_line_at(buf, pos) == wire::read_command_line(buf, pos, too_big)
            &&& pos + line.len() + 2 == next
            &&& pos < next <= buf.len()
        }),
{
    lemma_first_cr(buf, pos);
}

/// An argument that was read ends past where it started and inside the
/// buffer.
pub proof fn lemma_read_arg_bounds(buf: Seq<u8>, p: int)
    requires
        0 <= p,
        wire::read_arg(buf, p) is Ok,
    ensures
        p < wire::read_arg(buf, p)->Ok_0.1 <= buf.len(),
{
    lemma_command_line(buf, p, wire::msg_too_big_length_line());
}

/// Arguments that were read end at or past where they started and inside
/// the buffer.
pub proof fn lemma_read_args_bounds(buf: Seq<u8>, p: int, count: nat)
    requires
        0 <= p <= buf.len(),
        wire::read_args(buf, p, count) is Ok,
    ensures
        p <= wire::read_args(buf, p, count)->Ok_0.1 <= buf.len(),
    decreases count,
{
    if count > 0 {
        lemma_read_arg_bounds(buf, p);
        let p2 = wire::read_arg(buf, p)->Ok_0.1;
        lemma_read_args_bounds(buf, p2, (count - 1) as nat);
    }
}

/// A command that was read ends past where it started and inside the
/// buffer.
pub proof fn lemma_read_command_advances(buf: Seq<u8>, pos: int)
    requires
        wire::read_command(buf, pos).result is Ok,
    ensures
        pos < wire::read_command(buf, pos).pos <= buf.len(),
    decreases buf.len() - pos,
{
    lemma_first_cr(buf, pos);
    let (line, next) = wire::read_line_at(buf, pos)->Ok_0;
    if buf[pos] == 42u8 {
        let n = text::parse_signed(line.skip(1))->Some_0;
        if n < 0 {
            lemma_read_command_advances(buf, next);
        } else {
            lemma_read_args_bounds(buf, next, n as nat);
        }
    } else if wire::split_args(line)->Some_0.len() == 0 {
        lemma_read_command_advances(buf, next);
    }
}

/// Reads one line of a command, refusing with `too_big` a line whose end has
/// not arrived while more than `max_line_len` bytes wait unread.
fn read_command_line<'a>(buf: &'a [u8], pos: &mut usize, too_big: &str) -> (r: Result<
    &'a [u8],
    ParseError,
>)
    requires
        *old(pos) < buf@.len(),
        buf@.len() < usize::MAX,
    ensures
        match wire::read_command_line(buf@, *old(pos) as int, too_big@) {
            Ok((line, next)) => r matches Ok(l) && l@ == line && *final(pos) == next,
            Err(e) => r matches Err(err) && err@ == e && *final(pos) == *old(pos),
        },
{
    match read_line(buf, pos) {
        Ok(line) => Ok(line),
        Err(ParseError::Incomplete) => {
            if buf.len() - *pos > 65536 {
                Err(ParseError::Protocol(String::from_str(too_big)))
            } else {
                Err(ParseError::Incomplete)
            }
        },
        Err(e) => Err(e),
    }
}

/// The complaint about an argument that starts with `got` instead of `$`.
fn expected_dollar(got: u8) -> (r: String)
    ensures
        r@ == wire::msg_expected_dollar(got),
{
    let mut m = String::from_str("expected '$', got '");
    push_char(&mut m, got as char);
    m.append("'");
    proof {
        assert("expected '$', got '"@.push(got as char) =~= "expected '$', got '"@ + seq![
            got as char,
        ]);
    }
    m
}

/// `b"$3\r\nSET\r\n"` gives `b"SET"`: one argument of a command array.
///
/// An element that does not start with `$` is refused at once. The length
/// must be a number from 0 to 512MB: a null argument, or one so large that
/// waiting for it would hold the buffer hostage, is refused. On an error
/// `pos` does not move.
pub fn parse_argument(buf: &[u8], pos: &mut usize) -> (r: Result<Vec<u8>, ParseError>)
    requires
        *old(pos) <= buf@.len(),
        buf@.len() < usize::MAX,
    ensures
        match wire::read_arg(buf@, *old(pos) as int) {
            Ok((a, next)) => r matches Ok(v) && v@ == a && *final(pos) == next,
            Err(e) => r matches Err(err) && err@ == e && *final(pos) == *old(pos),
        },
{
    let start = *pos;
    if start >= buf.len() {
        return Err(ParseError::Incomplete);
    }
    let marker = buf[start];
    if marker != 36u8 {
        return Err(ParseError::Protocol(expected_dollar(marker)));
    }
    let line = match read_command_line(buf, pos, "too big bulk count string") {
        Ok(line) => line,
        Err(e) => return Err(e),
    };
    proof {
        lemma_command_line(buf@, start as int, wire::msg_too_big_length_line());
        lemma_read_line_at(buf@, start as int);
    }
    let body = slice_subrange(line, 1, line.len());
    assert(body@ == line@.skip(1));
    let n = match parse_i64(body) {
        Some(n) => n,
        None => {
            *pos = start;
            return Err(ParseError::Protocol(String::from_str("invalid bulk length")));
        },
    };
    if n < 0 || n > 536870912 {
        *pos = start;
        return Err(ParseError::Protocol(String::from_str("invalid bulk length")));
    }
    let len = n as usize;
    let next = *pos;
    if buf.len() - next < len || buf.len() - next - len < 2 {
        *pos = start;
        return Err(ParseError::Incomplete);
    }
    if buf[next + len] != 13u8 || buf[next + len + 1] != 10u8 {
        *pos = start;
        return Err(ParseError::Protocol(String::from_str("bulk string not terminated by CRLF")));
    }
    *pos = next + len + 2;
    Ok(bytes_to_vec(slice_subrange(buf, next, next + len)))
}

/// `b"*2\r\n$4\r\nECHO\r\n$2\r\nhi\r\n"` gives
/// `Array(Some([BulkString(Some(b"ECHO")), BulkString(Some(b"hi"))]))`.
///
/// Every element must be a `$` argument. A negative count is skipped and the
/// command after it read, and a count of zero gives an empty array; a count
/// that is not a number or is above 1024*1024 is refused at once. The command is all-or-nothing: if an
/// argument fails, `pos` goes back to where the command started.
pub fn parse_multibulk(buf: &[u8], pos: &mut usize) -> (r: Result<RespTypes, ParseError>)
    requires
        *old(pos) < buf@.len(),
        buf@.len() < usize::MAX,
        buf@[*old(pos) as int] == 42u8,
    ensures
        result_view(r) == wire::read_command(buf@, *old(pos) as int).result,
        *final(pos) == wire::read_command(buf@, *old(pos) as int).pos,
        r matches Ok(RespTypes::Array(Some(parts))) ==> parts@.len() <= buf@.len(),
    decreases buf@.len() - *old(pos), 0int,
{
    let frame_start = *pos;
    let line = match read_command_line(buf, pos, "too big mbulk count string") {
        Ok(line) => line,
        Err(e) => return Err(e),
    };
    proof {
        lemma_command_line(buf@, frame_start as int, wire::msg_too_big_count_line());
        lemma_read_line_at(buf@, frame_start as int);
    }
    let body = slice_subrange(line, 1, line.len());
    assert(body@ == line@.skip(1));
    let count = match parse_i64(body) {
        Some(n) => n,
        None => return Err(ParseError::Protocol(String::from_str("invalid multibulk length"))),
    };
    if count > 1048576 {
        return Err(ParseError::Protocol(String::from_str("invalid multibulk length")));
    }
    if count < 0 {
        // Nothing to run: skip the header like an empty line.
        return parse_command(buf, pos);
    }
    let n = count as usize;
    let ghost next = *pos as int;
    let ghost total = wire::read_args(buf@, next, n as nat);
    let ghost mut done: Seq<Seq<u8>> = Seq::empty();
    let mut parts: Vec<RespTypes> = Vec::new();
    let mut i: usize = 0;
    assert(done + Seq::<Seq<u8>>::empty() =~= Seq::<Seq<u8>>::empty());
    while i < n
        invariant
            i <= n,
            frame_start == *old(pos),
            frame_start < next <= *pos <= buf@.len(),
            buf@.len() < usize::MAX,
            parts@.len() == i,
            i <= *pos - next,
            total == wire::read_args(buf@, next, n as nat),
            wire::read_command(buf@, frame_start as int) == (match total {
                Err(e) => wire::reading(Err(e), frame_start as int),
                Ok((args, end)) => wire::reading(Ok(Frame::Array(Some(wire::bulks(args)))), end),
            }),
            frames_of(parts@) == wire::bulks(done),
            total == after_args(done, wire::read_args(buf@, *pos as int, (n - i) as nat)),
        decreases n - i,
    {
        let ghost p = *pos as int;
        match parse_argument(buf, pos) {
            Ok(arg) => {
                proof {
                    lemma_read_arg_bounds(buf@, p);
                    lemma_frames_of_push(parts@, RespTypes::BulkString(Some(arg)));
                    assert(wire::bulks(done.push(arg@)) =~= wire::bulks(done).push(
                        Frame::Bulk(Some(arg@)),
                    ));
                    let rest = wire::read_args(buf@, *pos as int, (n - i - 1) as nat);
                    assert(wire::read_args(buf@, p, (n - i) as nat) == after_args(
                        seq![arg@],
                        rest,
                    ));
                    if rest is Ok {
                        let vs = rest->Ok_0.0;
                        assert(done + (seq![arg@] + vs) =~= done.push(arg@) + vs);
                    }
                    done = done.push(arg@);
                }
                parts.push(RespTypes::BulkString(Some(arg)));
            },
            Err(e) => {
                *pos = frame_start;
                return Err(e);
            },
        }
        i = i + 1;
    }
    proof {
        assert(done + Seq::<Seq<u8>>::empty() =~= done);
    }
    Ok(RespTypes::Array(Some(parts)))
}

/// `b"SET  foo bar\r\n"` gives `Array([Bulk("SET"), Bulk("foo"), Bulk("bar")])`.
///
/// A bare line of arguments, split as a shell would: the frame that comes out
/// has the same shape a RESP array would, so `dispatch` never has to know
/// which format the client used. A blank line is consumed and the command
/// after it is read; an unclosed quote is refused.
pub fn parse_inline(buff: &[u8], pos: &mut usize) -> (r: Result<RespTypes, ParseError>)
    requires
        *old(pos) < buff@.len(),
        buff@.len() < usize::MAX,
        buff@[*old(pos) as int] != 42u8,
    ensures
        result_view(r) == wire::read_command(buff@, *old(pos) as int).result,
        *final(pos) == wire::read_command(buff@, *old(pos) as int).pos,
        r matches Ok(RespTypes::Array(Some(parts))) ==> parts@.len() <= buff@.len(),
    decreases buff@.len() - *old(pos), 0int,
{
    let frame_start = *pos;
    let line = match read_command_line(buff, pos, "too big inline request") {
        Ok(line) => line,
        Err(e) => return Err(e),
    };
    proof {
        lemma_command_line(buff@, frame_start as int, wire::msg_too_big_inline());
    }
    let words = match split_inline(line) {
        Some(words) => words,
        None => return Err(ParseError::Protocol(String::from_str("unbalanced quotes in request"))),
    };
    if words.len() == 0 {
        // A blank line: not a command and not an error. It is consumed, so
        // read whatever comes after it.
        return parse_command(buff, pos);
    }
    let ghost ws = byte_strings(words@);
    let mut parts: Vec<RespTypes> = Vec::new();
    let mut i: usize = 0;
    while i < words.len()
        invariant
            i <= words@.len(),
            ws == byte_strings(words@),
            parts@.len() == i,
            frames_of(parts@) == wire::bulks(ws.take(i as int)),
        decreases words.len() - i,
    {
        let w = bytes_to_vec(words[i].as_slice());
        proof {
            lemma_frames_of_push(parts@, RespTypes::BulkString(Some(w)));
            assert(wire::bulks(ws.take(i + 1)) =~= wire::bulks(ws.take(i as int)).push(
                Frame::Bulk(Some(w@)),
            ));
        }
        parts.push(RespTypes::BulkString(Some(w)));
        i = i + 1;
    }
    assert(ws.take(i as int) =~= ws);
    Ok(RespTypes::Array(Some(parts)))
}

/// Reads one command from a client.
///
/// A leading `*` is a command array of `$` arguments; anything else is an
/// inline command.
pub fn parse_command(buf: &[u8], pos: &mut usize) -> (r: Result<RespTypes, ParseError>)
    requires
        buf@.len() < usize::MAX,
    ensures
        result_view(r) == wire::read_command(buf@, *old(pos) as int).result,
        *final(pos) == wire::read_command(buf@, *old(pos) as int).pos,
        r matches Ok(RespTypes::Array(Some(parts))) ==> parts@.len() <= buf@.len(),
    decreases buf@.len() - *old(pos), 1int,
{
    if *pos >= buf.len() {
        return Err(ParseError::Incomplete);
    }
    if buf[*pos] == 42u8 {
        parse_multibulk(buf, pos)
    } else {
        parse_inline(buf, pos)
    }
}

} // verus!
