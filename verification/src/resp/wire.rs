//! The RESP2 wire format as mathematics: what a frame is, how a buffer is read
//! into one, and how one is written out as bytes.
use crate::text;
use vstd::prelude::*;
use vstd::utf8::*;

verus! {

broadcast use vstd::utf8::group_utf8_lib;

/// One RESP2 value, as the contracts speak of it.
pub enum Frame {
    Simple(Seq<char>),
    Error(Seq<char>),
    Integer(int),
    Bulk(Option<Seq<u8>>),
    Array(Option<Seq<Frame>>),
}

/// Why a buffer could not be read into a frame.
pub enum Failure {
    /// The frame is not all there yet.
    Incomplete,
    /// The bytes are not RESP; the text says what was wrong.
    Protocol(Seq<char>),
}

/// The result of reading at a position: the frame or the failure, and where
/// the cursor stands afterwards.
pub struct Reading {
    pub result: Result<Frame, Failure>,
    pub pos: int,
}

pub open spec fn reading(result: Result<Frame, Failure>, pos: int) -> Reading {
    Reading { result, pos }
}

pub open spec fn cr_byte() -> u8 {
    13u8
}

pub open spec fn lf_byte() -> u8 {
    10u8
}

pub open spec fn crlf() -> Seq<u8> {
    seq![13u8, 10u8]
}

/// The line body that stands for a null bulk string or a null array.
pub open spec fn minus_one() -> Seq<u8> {
    seq![45u8, 49u8]
}

pub open spec fn msg_lone_cr() -> Seq<char> {
    "expected \\n after \\r"@
}

pub open spec fn msg_unknown_type() -> Seq<char> {
    "unknown RESP type"@
}

pub open spec fn msg_invalid_utf8() -> Seq<char> {
    "invalid UTF-8"@
}

pub open spec fn msg_invalid_number() -> Seq<char> {
    "invalid number parsing error"@
}

pub open spec fn msg_invalid_bulk_length() -> Seq<char> {
    "invalid bulk length"@
}

pub open spec fn msg_bulk_too_large() -> Seq<char> {
    "bulk length too large"@
}

pub open spec fn msg_bulk_unterminated() -> Seq<char> {
    "bulk string not terminated by CRLF"@
}

pub open spec fn msg_invalid_array_length() -> Seq<char> {
    "invalid array length"@
}

/// The index of the first `\r` at or after `i`, or `i` itself when `i` is
/// already at or past the end.
pub open spec fn first_cr(buf: Seq<u8>, i: int) -> int
    decreases buf.len() - i,
{
    if i >= buf.len() || i < 0 {
        i
    } else if buf[i] == cr_byte() {
        i
    } else {
        first_cr(buf, i + 1)
    }
}

/// Reading one line starting at `pos`: the bytes up to the next `\r\n`, and
/// the position just past it.
pub open spec fn read_line_at(buf: Seq<u8>, pos: int) -> Result<(Seq<u8>, int), Failure> {
    let i = first_cr(buf, pos);
    if i + 1 >= buf.len() {
        Err(Failure::Incomplete)
    } else if buf[i + 1] != lf_byte() {
        Err(Failure::Protocol(msg_lone_cr()))
    } else {
        Ok((buf.subrange(pos, i), i + 2))
    }
}

/// The text of a one-line frame: the line without its marker byte, when that
/// is valid UTF-8.
pub open spec fn line_text(line: Seq<u8>) -> Result<Seq<char>, Failure> {
    if valid_utf8(line.skip(1)) {
        Ok(decode_utf8(line.skip(1)))
    } else {
        Err(Failure::Protocol(msg_invalid_utf8()))
    }
}

/// `+text` and `-text` frames.
pub open spec fn read_text_frame(buf: Seq<u8>, pos: int, is_error: bool) -> Reading {
    match read_line_at(buf, pos) {
        Err(e) => reading(Err(e), pos),
        Ok((line, next)) => match line_text(line) {
            Err(e) => reading(Err(e), next),
            Ok(s) => reading(
                Ok(
                    if is_error {
                        Frame::Error(s)
                    } else {
                        Frame::Simple(s)
                    },
                ),
                next,
            ),
        },
    }
}

/// `:n` frames.
pub open spec fn read_integer_frame(buf: Seq<u8>, pos: int) -> Reading {
    match read_line_at(buf, pos) {
        Err(e) => reading(Err(e), pos),
        Ok((line, next)) => if !valid_utf8(line.skip(1)) {
            reading(Err(Failure::Protocol(msg_invalid_utf8())), next)
        } else {
            match text::parse_signed(line.skip(1)) {
                None => reading(Err(Failure::Protocol(msg_invalid_number())), next),
                Some(n) => reading(Ok(Frame::Integer(n)), next),
            }
        },
    }
}

/// `$len\r\npayload\r\n` frames, and the null bulk string `$-1\r\n`.
pub open spec fn read_bulk_frame(buf: Seq<u8>, pos: int) -> Reading {
    match read_line_at(buf, pos) {
        Err(e) => reading(Err(e), pos),
        Ok((line, next)) => {
            let body = line.skip(1);
            if body == minus_one() {
                reading(Ok(Frame::Bulk(None)), next)
            } else if !valid_utf8(body) {
                reading(Err(Failure::Protocol(msg_invalid_utf8())), next)
            } else {
                match text::parse_unsigned(body) {
                    None => reading(Err(Failure::Protocol(msg_invalid_bulk_length())), next),
                    Some(n) => {
                        let end = next + n;
                        if end > usize::MAX {
                            reading(Err(Failure::Protocol(msg_bulk_too_large())), next)
                        } else if end + 2 > buf.len() {
                            reading(Err(Failure::Incomplete), pos)
                        } else if buf[end] != cr_byte() || buf[end + 1] != lf_byte() {
                            reading(Err(Failure::Protocol(msg_bulk_unterminated())), next)
                        } else {
                            reading(Ok(Frame::Bulk(Some(buf.subrange(next, end)))), end + 2)
                        }
                    },
                }
            }
        },
    }
}

/// Reading one RESP value at `pos`. The marker byte picks the type.
pub open spec fn read_frame(buf: Seq<u8>, pos: int) -> Reading
    decreases buf.len() - pos, 0int, 0nat,
{
    if pos < 0 || pos >= buf.len() {
        reading(Err(Failure::Incomplete), pos)
    } else if buf[pos] == 43u8 {
        read_text_frame(buf, pos, false)
    } else if buf[pos] == 45u8 {
        read_text_frame(buf, pos, true)
    } else if buf[pos] == 58u8 {
        read_integer_frame(buf, pos)
    } else if buf[pos] == 36u8 {
        read_bulk_frame(buf, pos)
    } else if buf[pos] == 42u8 {
        match read_line_at(buf, pos) {
            Err(e) => reading(Err(e), pos),
            Ok((line, next)) => {
                let body = line.skip(1);
                if body == minus_one() {
                    reading(Ok(Frame::Array(None)), next)
                } else if !valid_utf8(body) {
                    reading(Err(Failure::Protocol(msg_invalid_utf8())), next)
                } else {
                    match text::parse_unsigned(body) {
                        None => reading(Err(Failure::Protocol(msg_invalid_array_length())), next),
                        Some(n) => if n > buf.len() - next {
                            reading(Err(Failure::Incomplete), pos)
                        } else if next <= pos {
                            // a line always ends past where it starts
                            reading(Err(Failure::Incomplete), pos)
                        } else {
                            match read_frames(buf, next, n) {
                                Err(e) => reading(Err(e), pos),
                                Ok((items, end)) => reading(Ok(Frame::Array(Some(items))), end),
                            }
                        },
                    }
                }
            },
        }
    } else {
        reading(Err(Failure::Protocol(msg_unknown_type())), pos)
    }
}

/// Reading `count` values one after another starting at `pos`: all of them
/// and the position past the last, or the first failure.
pub open spec fn read_frames(buf: Seq<u8>, pos: int, count: nat) -> Result<
    (Seq<Frame>, int),
    Failure,
>
    decreases buf.len() - pos, 1int, count,
{
    if count == 0 {
        Ok((Seq::empty(), pos))
    } else {
        let r = read_frame(buf, pos);
        match r.result {
            Err(e) => Err(e),
            Ok(v) => if r.pos <= pos || r.pos > buf.len() {
                // a value always ends past where it starts
                Err(Failure::Incomplete)
            } else {
                match read_frames(buf, r.pos, (count - 1) as nat) {
                    Err(e) => Err(e),
                    Ok((vs, end)) => Ok((seq![v] + vs, end)),
                }
            },
        }
    }
}

/// Each word as a bulk string.
pub open spec fn bulks(ws: Seq<Seq<u8>>) -> Seq<Frame> {
    Seq::new(ws.len(), |i: int| Frame::Bulk(Some(ws[i])))
}

/// How many unread bytes a command line may run to before its `\r\n` must
/// have arrived.
pub open spec fn max_line_len() -> int {
    65536
}

/// The most arguments a command array may announce.
pub open spec fn max_arg_count() -> int {
    1048576
}

/// The longest argument a command array may announce.
pub open spec fn max_arg_len() -> int {
    536870912
}

pub open spec fn msg_invalid_multibulk_length() -> Seq<char> {
    "invalid multibulk length"@
}

pub open spec fn msg_too_big_count_line() -> Seq<char> {
    "too big mbulk count string"@
}

pub open spec fn msg_too_big_length_line() -> Seq<char> {
    "too big bulk count string"@
}

pub open spec fn msg_too_big_inline() -> Seq<char> {
    "too big inline request"@
}

pub open spec fn msg_unbalanced_quotes() -> Seq<char> {
    "unbalanced quotes in request"@
}

/// The complaint about an argument that does not start with `$`.
pub open spec fn msg_expected_dollar(got: u8) -> Seq<char> {
    "expected '$', got '"@ + seq![got as char] + "'"@
}

/// Reading one line of a command. A line whose `\r\n` has not arrived while
/// more than `max_line_len` bytes wait unread is refused with `too_big`,
/// so a client that never ends its line cannot make the buffer grow without
/// bound.
pub open spec fn read_command_line(buf: Seq<u8>, pos: int, too_big: Seq<char>) -> Result<
    (Seq<u8>, int),
    Failure,
> {
    match read_line_at(buf, pos) {
        Err(Failure::Incomplete) => if buf.len() - pos > max_line_len() {
            Err(Failure::Protocol(too_big))
        } else {
            Err(Failure::Incomplete)
        },
        other => other,
    }
}

/// Reading one argument of a command array at `p`: `$len\r\n`, then `len`
/// bytes and `\r\n`. Any other first byte is refused as soon as it is
/// there, without waiting for its line to end. The length must be a number
/// in `0..=max_arg_len`.
pub open spec fn read_arg(buf: Seq<u8>, p: int) -> Result<(Seq<u8>, int), Failure> {
    if p < 0 || p >= buf.len() {
        Err(Failure::Incomplete)
    } else if buf[p] != 36u8 {
        Err(Failure::Protocol(msg_expected_dollar(buf[p])))
    } else {
        match read_command_line(buf, p, msg_too_big_length_line()) {
            Err(e) => Err(e),
            Ok((line, next)) => match text::parse_signed(line.skip(1)) {
                None => Err(Failure::Protocol(msg_invalid_bulk_length())),
                Some(n) => if n < 0 || n > max_arg_len() {
                    Err(Failure::Protocol(msg_invalid_bulk_length()))
                } else if next + n + 2 > buf.len() {
                    Err(Failure::Incomplete)
                } else if buf[next + n] != cr_byte() || buf[next + n + 1] != lf_byte() {
                    Err(Failure::Protocol(msg_bulk_unterminated()))
                } else {
                    Ok((buf.subrange(next, next + n), next + n + 2))
                },
            },
        }
    }
}

/// Reading `count` arguments one after another.
pub open spec fn read_args(buf: Seq<u8>, p: int, count: nat) -> Result<
    (Seq<Seq<u8>>, int),
    Failure,
>
    decreases count,
{
    if count == 0 {
        Ok((Seq::empty(), p))
    } else {
        match read_arg(buf, p) {
            Err(e) => Err(e),
            Ok((a, p2)) => match read_args(buf, p2, (count - 1) as nat) {
                Err(e) => Err(e),
                Ok((rest, end)) => Ok((seq![a] + rest, end)),
            },
        }
    }
}

/// Where a quote stands while an inline argument is read.
#[derive(Clone, Copy)]
pub enum Quote {
    Plain,
    Double,
    Single,
}

/// The byte that separates inline arguments: the space. Any other byte, a
/// tab included, belongs to an argument.
pub open spec fn is_space(b: u8) -> bool {
    b == 32u8
}

pub open spec fn is_hex(b: u8) -> bool {
    (48u8 <= b && b <= 57u8) || (97u8 <= b && b <= 102u8) || (65u8 <= b && b <= 70u8)
}

pub open spec fn hex_value(b: u8) -> int {
    if 48u8 <= b && b <= 57u8 {
        b - 48
    } else if 97u8 <= b && b <= 102u8 {
        b - 87
    } else {
        b - 55
    }
}

/// The byte that `\` followed by `b` stands for inside double quotes.
pub open spec fn unescaped(b: u8) -> u8 {
    if b == 110u8 {
        10u8
    } else if b == 114u8 {
        13u8
    } else if b == 116u8 {
        9u8
    } else if b == 98u8 {
        8u8
    } else if b == 97u8 {
        7u8
    } else {
        b
    }
}

/// Reading the rest of one inline argument from `i`, in quote state `q`,
/// with `acc` read so far: the argument and the position past it, or `None`
/// when a quote is never closed or a closing quote is followed by something
/// other than a space.
///
/// Inside double quotes `\xHH` is a byte in hex and `\n`, `\r`, `\t`, `\b`,
/// `\a` and `\<c>` are escapes; inside single quotes only `\'` is.
pub open spec fn arg_from(line: Seq<u8>, i: int, q: Quote, acc: Seq<u8>) -> Option<(Seq<u8>, int)>
    decreases line.len() - i,
{
    if i < 0 || i >= line.len() {
        match q {
            Quote::Plain => Some((acc, i)),
            _ => None,
        }
    } else {
        let c = line[i];
        match q {
            Quote::Plain => if is_space(c) {
                Some((acc, i + 1))
            } else if c == 34u8 {
                arg_from(line, i + 1, Quote::Double, acc)
            } else if c == 39u8 {
                arg_from(line, i + 1, Quote::Single, acc)
            } else {
                arg_from(line, i + 1, Quote::Plain, acc.push(c))
            },
            Quote::Double => if c == 92u8 && i + 3 < line.len() && line[i + 1] == 120u8 && is_hex(
                line[i + 2],
            ) && is_hex(line[i + 3]) {
                arg_from(
                    line,
                    i + 4,
                    Quote::Double,
                    acc.push((hex_value(line[i + 2]) * 16 + hex_value(line[i + 3])) as u8),
                )
            } else if c == 92u8 && i + 1 < line.len() {
                arg_from(line, i + 2, Quote::Double, acc.push(unescaped(line[i + 1])))
            } else if c == 34u8 {
                if i + 1 < line.len() && !is_space(line[i + 1]) {
                    None
                } else {
                    Some((acc, i + 1))
                }
            } else {
                arg_from(line, i + 1, Quote::Double, acc.push(c))
            },
            Quote::Single => if c == 92u8 && i + 1 < line.len() && line[i + 1] == 39u8 {
                arg_from(line, i + 2, Quote::Single, acc.push(39u8))
            } else if c == 39u8 {
                if i + 1 < line.len() && !is_space(line[i + 1]) {
                    None
                } else {
                    Some((acc, i + 1))
                }
            } else {
                arg_from(line, i + 1, Quote::Single, acc.push(c))
            },
        }
    }
}

/// The first position at or after `i` that is not a space.
pub open spec fn skip_spaces(line: Seq<u8>, i: int) -> int
    decreases line.len() - i,
{
    if i < 0 || i >= line.len() || !is_space(line[i]) {
        i
    } else {
        skip_spaces(line, i + 1)
    }
}

/// The arguments of an inline line from `i` on, split as a shell would:
/// spaces separate them, and quotes group and escape. `None` when the
/// quoting is unbalanced.
pub open spec fn args_from(line: Seq<u8>, i: int) -> Option<Seq<Seq<u8>>>
    decreases line.len() - i,
{
    let j = skip_spaces(line, i);
    if j < i || j >= line.len() {
        Some(Seq::empty())
    } else {
        match arg_from(line, j, Quote::Plain, Seq::empty()) {
            None => None,
            Some((a, k)) => if k <= j || k > line.len() {
                None
            } else {
                match args_from(line, k) {
                    None => None,
                    Some(rest) => Some(seq![a] + rest),
                }
            },
        }
    }
}

/// The arguments of a whole inline line.
pub open spec fn split_args(line: Seq<u8>) -> Option<Seq<Seq<u8>>> {
    args_from(line, 0)
}

/// Reading one client command at `pos`.
///
/// A leading `*` starts a command array: a count, then that many `$`
/// arguments. A negative count is skipped like an empty line, and a count
/// of zero is an empty command; a count that is not a number or is above `max_arg_count` is refused. Anything else
/// is an inline line of shell-style arguments; a blank line is skipped.
pub open spec fn read_command(buf: Seq<u8>, pos: int) -> Reading
    decreases buf.len() - pos,
{
    if pos < 0 || pos >= buf.len() {
        reading(Err(Failure::Incomplete), pos)
    } else if buf[pos] == 42u8 {
        match read_command_line(buf, pos, msg_too_big_count_line()) {
            Err(e) => reading(Err(e), pos),
            Ok((line, next)) => match text::parse_signed(line.skip(1)) {
                None => reading(Err(Failure::Protocol(msg_invalid_multibulk_length())), next),
                Some(n) => if n > max_arg_count() {
                    reading(Err(Failure::Protocol(msg_invalid_multibulk_length())), next)
                } else if n < 0 {
                    if next <= pos {
                        reading(Err(Failure::Incomplete), pos)
                    } else {
                        read_command(buf, next)
                    }
                } else {
                    match read_args(buf, next, n as nat) {
                        Err(e) => reading(Err(e), pos),
                        Ok((args, end)) => reading(Ok(Frame::Array(Some(bulks(args)))), end),
                    }
                },
            },
        }
    } else {
        match read_command_line(buf, pos, msg_too_big_inline()) {
            Err(e) => reading(Err(e), pos),
            Ok((line, next)) => match split_args(line) {
                None => reading(Err(Failure::Protocol(msg_unbalanced_quotes())), next),
                Some(ws) => if ws.len() == 0 {
                    if next <= pos {
                        reading(Err(Failure::Incomplete), pos)
                    } else {
                        read_command(buf, next)
                    }
                } else {
                    reading(Ok(Frame::Array(Some(bulks(ws)))), next)
                },
            },
        }
    }
}

/// The bytes that a frame is written as.
pub open spec fn encode_frame(f: Frame) -> Seq<u8>
    decreases f, 0int,
{
    match f {
        Frame::Simple(s) => seq![43u8] + encode_utf8(s) + crlf(),
        Frame::Error(s) => seq![45u8] + encode_utf8(s) + crlf(),
        Frame::Integer(n) => seq![58u8] + text::signed_decimal(n) + crlf(),
        Frame::Bulk(None) => seq![36u8] + minus_one() + crlf(),
        Frame::Bulk(Some(b)) => seq![36u8] + text::decimal(b.len()) + crlf() + b + crlf(),
        Frame::Array(None) => seq![42u8] + minus_one() + crlf(),
        Frame::Array(Some(items)) => seq![42u8] + text::decimal(items.len()) + crlf() + encode_frames(
            items,
        ),
    }
}

/// The frames written one after another.
pub open spec fn encode_frames(items: Seq<Frame>) -> Seq<u8>
    decreases items, 1int,
{
    if items.len() == 0 {
        Seq::empty()
    } else {
        proof {
            vstd::seq::axiom_seq_subrange_decreases(items, 1, items.len() as int);
        }
        encode_frame(items[0]) + encode_frames(items.drop_first())
    }
}

/// Writing one more frame after some others appends its bytes.
pub proof fn lemma_encode_frames_push(items: Seq<Frame>, f: Frame)
    ensures
        encode_frames(items.push(f)) == encode_frames(items) + encode_frame(f),
    decreases items.len(),
{
    if items.len() == 0 {
        assert(items.push(f).drop_first() =~= Seq::<Frame>::empty());
        assert(encode_frames(items.push(f).drop_first()) == Seq::<u8>::empty());
        assert(items.push(f)[0] == f);
        assert(encode_frames(items) == Seq::<u8>::empty());
        assert(Seq::<u8>::empty() + encode_frame(f) =~= encode_frame(f) + Seq::<u8>::empty());
    } else {
        assert(items.push(f).drop_first() =~= items.drop_first().push(f));
        lemma_encode_frames_push(items.drop_first(), f);
        assert(encode_frames(items.push(f)) =~= encode_frames(items) + encode_frame(f));
    }
}

} // verus!
