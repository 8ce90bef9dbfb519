//! What reading and writing frames promise together.
use crate::resp::wire::{self, Failure, Frame};
use crate::text;
use vstd::prelude::*;
use vstd::utf8::*;

verus! {

broadcast use vstd::utf8::group_utf8_lib;

/// A frame that survives the trip over the wire: its text holds no `\r`
/// (which would end its line early) and its integer fits in an `i64`.
pub open spec fn transmissible(f: Frame) -> bool
    decreases f, 0int,
{
    match f {
        Frame::Simple(s) => !s.contains('\r'),
        Frame::Error(s) => !s.contains('\r'),
        Frame::Integer(n) => i64::MIN <= n <= i64::MAX,
        Frame::Bulk(_) => true,
        Frame::Array(None) => true,
        Frame::Array(Some(items)) => all_transmissible(items),
    }
}

/// Every frame of the sequence is transmissible.
pub open spec fn all_transmissible(items: Seq<Frame>) -> bool
    decreases items, 1int,
{
    if items.len() == 0 {
        true
    } else {
        proof {
            vstd::seq::axiom_seq_subrange_decreases(items, 1, items.len() as int);
        }
        transmissible(items[0]) && all_transmissible(items.drop_first())
    }
}

/// The first `\r` at or after `i` is at `j` when nothing before it is one.
proof fn lemma_first_cr_at(buf: Seq<u8>, i: int, j: int)
    requires
        0 <= i <= j < buf.len(),
        forall|t: int| i <= t < j ==> buf[t] != 13u8,
        buf[j] == 13u8,
    ensures
        wire::first_cr(buf, i) == j,
    decreases j - i,
{
    if i < j {
        lemma_first_cr_at(buf, i + 1, j);
    }
}

/// No byte of the UTF-8 encoding of a character other than `\r` is a `\r`.
proof fn lemma_encode_scalar_no_cr(c: char)
    requires
        c != '\r',
    ensures
        !encode_scalar(c as u32).contains(13u8),
{
    let v = c as u32;
    assert(v != 13u32);
    let e = encode_scalar(v);
    if has_width_1_encoding(v) {
        assert((v & 0x7Fu32) as u8 != 13u8) by (bit_vector)
            requires
                v <= 0x7Fu32,
                v != 13u32,
        ;
        assert(e[0] != 13u8);
    } else {
        assert((0x80u8 | ((v & 0x3Fu32) as u8)) != 13u8) by (bit_vector);
        assert((0x80u8 | (((v >> 6u32) & 0x3Fu32) as u8)) != 13u8) by (bit_vector);
        assert((0x80u8 | (((v >> 12u32) & 0x3Fu32) as u8)) != 13u8) by (bit_vector);
        assert((0xC0u8 | (((v >> 6u32) & 0x1Fu32) as u8)) != 13u8) by (bit_vector);
        assert((0xE0u8 | (((v >> 12u32) & 0x0Fu32) as u8)) != 13u8) by (bit_vector);
        assert((0xF0u8 | (((v >> 18u32) & 0x7u32) as u8)) != 13u8) by (bit_vector);
        assert forall|i: int| 0 <= i < e.len() implies e[i] != 13u8 by {}
    }
}

/// Text without a `\r` has no `\r` byte in its UTF-8 encoding.
proof fn lemma_encode_utf8_no_cr(s: Seq<char>)
    requires
        !s.contains('\r'),
    ensures
        !encode_utf8(s).contains(13u8),
    decreases s.len(),
{
    if s.len() > 0 {
        assert(s[0] != '\r') by {
            if s[0] == '\r' {
                assert(s.contains(s[0]));
            }
        }
        lemma_encode_scalar_no_cr(s[0]);
        assert(!s.drop_first().contains('\r')) by {
            if s.drop_first().contains('\r') {
                let k = choose|k: int| 0 <= k < s.drop_first().len() && s.drop_first()[k] == '\r';
                assert(s[k + 1] == '\r');
            }
        }
        lemma_encode_utf8_no_cr(s.drop_first());
        let a = encode_scalar(s[0] as u32);
        let b = encode_utf8(s.drop_first());
        assert forall|k: int| 0 <= k < (a + b).len() implies (a + b)[k] != 13u8 by {
            if k < a.len() {
                assert(a[k] != 13u8) by {
                    if a[k] == 13u8 {
                        assert(a.contains(a[k]));
                    }
                }
            } else {
                assert(b[k - a.len()] != 13u8) by {
                    if b[k - a.len()] == 13u8 {
                        assert(b.contains(b[k - a.len()]));
                    }
                }
            }
        }
    }
}

/// Bytes below 128 are valid UTF-8.
proof fn lemma_ascii_valid_utf8(bytes: Seq<u8>)
    requires
        forall|i: int| 0 <= i < bytes.len() ==> bytes[i] < 128u8,
    ensures
        valid_utf8(bytes),
{
    let chars = Seq::new(bytes.len(), |i: int| bytes[i] as char);
    assert(is_ascii_chars(chars));
    is_ascii_chars_encode_utf8(chars);
    assert(encode_utf8(chars) =~= bytes);
    encode_utf8_valid_utf8(chars);
}

/// The digits of a decimal spelling are ASCII and none is a `\r`.
proof fn lemma_decimal_bytes(n: nat)
    ensures
        forall|i: int|
            0 <= i < text::decimal(n).len() ==> 48u8 <= #[trigger] text::decimal(n)[i] <= 57u8,
{
    text::lemma_decimal(n);
    assert forall|i: int| 0 <= i < text::decimal(n).len() implies 48u8 <= #[trigger] text::decimal(
        n,
    )[i] <= 57u8 by {
        assert(text::is_digit(text::decimal(n)[i]));
    }
}

/// A line whose content holds no `\r` is read back as that content.
proof fn lemma_read_line_of(buf: Seq<u8>, pos: int, content: Seq<u8>)
    requires
        0 <= pos,
        pos + content.len() + 2 <= buf.len(),
        buf.subrange(pos, pos + content.len() + 2) == content + wire::crlf(),
        forall|i: int| 0 <= i < content.len() ==> content[i] != 13u8,
    ensures
        wire::read_line_at(buf, pos) == Ok::<(Seq<u8>, int), Failure>(
            (content, pos + content.len() + 2),
        ),
{
    let j = pos + content.len();
    assert forall|t: int| pos <= t < j implies buf[t] != 13u8 by {
        assert(buf[t] == buf.subrange(pos, j + 2)[t - pos]);
    }
    assert(buf[j] == buf.subrange(pos, j + 2)[j - pos]);
    assert(buf[j + 1] == buf.subrange(pos, j + 2)[j + 1 - pos]);
    lemma_first_cr_at(buf, pos, j);
    assert(buf.subrange(pos, j) =~= content) by {
        assert forall|t: int| 0 <= t < content.len() implies buf.subrange(pos, j)[t]
            == content[t] by {
            assert(buf.subrange(pos, j + 2)[t] == (content + wire::crlf())[t]);
        }
    }
}

/// Every frame is written as at least three bytes.
pub proof fn lemma_encode_frame_len(f: Frame)
    ensures
        wire::encode_frame(f).len() >= 3,
{
}

/// Several frames are written as at least one byte each.
pub proof fn lemma_encode_frames_len(items: Seq<Frame>)
    ensures
        wire::encode_frames(items).len() >= items.len(),
    decreases items.len(),
{
    if items.len() > 0 {
        lemma_encode_frame_len(items[0]);
        lemma_encode_frames_len(items.drop_first());
    }
}

/// What a frame is written as, read back from any buffer that holds those
/// bytes at `pos`, is that frame, with the cursor just past its bytes.
///
/// This is the sense in which `encode` is the opposite of `parse`: every
/// transmissible frame survives being written and read, wherever it stands in
/// the stream and whatever follows it.
pub proof fn law_read_frame_of_encoded(f: Frame, buf: Seq<u8>, pos: int)
    requires
        transmissible(f),
        0 <= pos,
        pos + wire::encode_frame(f).len() <= buf.len(),
        buf.len() <= usize::MAX,
        buf.subrange(pos, pos + wire::encode_frame(f).len()) == wire::encode_frame(f),
    ensures
        wire::read_frame(buf, pos) == wire::reading(Ok(f), pos + wire::encode_frame(f).len()),
    decreases f, 0int,
{
    let e = wire::encode_frame(f);
    assert(buf[pos] == e[0]) by {
        assert(buf.subrange(pos, pos + e.len())[0] == buf[pos]);
    }
    match f {
        Frame::Simple(s) => {
            lemma_encode_utf8_no_cr(s);
            let content = seq![43u8] + encode_utf8(s);
            assert(e =~= content + wire::crlf());
            assert forall|i: int| 0 <= i < content.len() implies content[i] != 13u8 by {
                if i > 0 {
                    assert(content[i] == encode_utf8(s)[i - 1]);
                    if encode_utf8(s)[i - 1] == 13u8 {
                        assert(encode_utf8(s).contains(encode_utf8(s)[i - 1]));
                    }
                }
            }
            lemma_read_line_of(buf, pos, content);
            assert(content.skip(1) =~= encode_utf8(s));
        },
        Frame::Error(s) => {
            lemma_encode_utf8_no_cr(s);
            let content = seq![45u8] + encode_utf8(s);
            assert(e =~= content + wire::crlf());
            assert forall|i: int| 0 <= i < content.len() implies content[i] != 13u8 by {
                if i > 0 {
                    assert(content[i] == encode_utf8(s)[i - 1]);
                    if encode_utf8(s)[i - 1] == 13u8 {
                        assert(encode_utf8(s).contains(encode_utf8(s)[i - 1]));
                    }
                }
            }
            lemma_read_line_of(buf, pos, content);
            assert(content.skip(1) =~= encode_utf8(s));
        },
        Frame::Integer(n) => {
            let d = text::signed_decimal(n);
            let content = seq![58u8] + d;
            assert(e =~= content + wire::crlf());
            if n < 0 {
                lemma_decimal_bytes((-n) as nat);
                assert forall|i: int| 0 <= i < d.len() implies d[i] < 128u8 && d[i] != 13u8 by {
                    if i > 0 {
                        assert(d[i] == text::decimal((-n) as nat)[i - 1]);
                    }
                }
            } else {
                lemma_decimal_bytes(n as nat);
            }
            assert forall|i: int| 0 <= i < content.len() implies content[i] != 13u8 by {
                if i > 0 {
                    assert(content[i] == d[i - 1]);
                }
            }
            lemma_read_line_of(buf, pos, content);
            assert(content.skip(1) =~= d);
            lemma_ascii_valid_utf8(d);
            text::lemma_parse_signed_decimal(n);
        },
        Frame::Bulk(None) => {
            let content = seq![36u8] + wire::minus_one();
            assert(e =~= content + wire::crlf());
            lemma_read_line_of(buf, pos, content);
            assert(content.skip(1) =~= wire::minus_one());
        },
        Frame::Array(None) => {
            let content = seq![42u8] + wire::minus_one();
            assert(e =~= content + wire::crlf());
            lemma_read_line_of(buf, pos, content);
            assert(content.skip(1) =~= wire::minus_one());
        },
        Frame::Bulk(Some(b)) => {
            let d = text::decimal(b.len());
            let content = seq![36u8] + d;
            lemma_decimal_bytes(b.len());
            assert(e =~= content + wire::crlf() + b + wire::crlf());
            assert(buf.subrange(pos, pos + content.len() + 2) =~= content + wire::crlf()) by {
                assert forall|t: int| 0 <= t < content.len() + 2 implies buf.subrange(
                    pos,
                    pos + content.len() + 2,
                )[t] == (content + wire::crlf())[t] by {
                    assert(buf.subrange(pos, pos + e.len())[t] == e[t]);
                }
            }
            assert forall|i: int| 0 <= i < content.len() implies content[i] != 13u8 by {
                if i > 0 {
                    assert(content[i] == d[i - 1]);
                }
            }
            lemma_read_line_of(buf, pos, content);
            assert(content.skip(1) =~= d);
            lemma_ascii_valid_utf8(d);
            text::lemma_decimal(b.len());
            assert(d[0] != 45u8);
            assert(d != wire::minus_one());
            text::lemma_parse_unsigned_decimal(b.len());
            let next = pos + content.len() + 2;
            let end = next + b.len();
            assert(buf[end] == e[end - pos]) by {
                assert(buf.subrange(pos, pos + e.len())[end - pos] == buf[end]);
            }
            assert(buf[end + 1] == e[end + 1 - pos]) by {
                assert(buf.subrange(pos, pos + e.len())[end + 1 - pos] == buf[end + 1]);
            }
            assert(buf.subrange(next, end) =~= b) by {
                assert forall|t: int| 0 <= t < b.len() implies buf.subrange(next, end)[t]
                    == b[t] by {
                    assert(buf.subrange(pos, pos + e.len())[next - pos + t] == buf[next + t]);
                }
            }
        },
        Frame::Array(Some(items)) => {
            let d = text::decimal(items.len());
            let content = seq![42u8] + d;
            let rest = wire::encode_frames(items);
            lemma_decimal_bytes(items.len());
            assert(e =~= content + wire::crlf() + rest);
            assert(buf.subrange(pos, pos + content.len() + 2) =~= content + wire::crlf()) by {
                assert forall|t: int| 0 <= t < content.len() + 2 implies buf.subrange(
                    pos,
                    pos + content.len() + 2,
                )[t] == (content + wire::crlf())[t] by {
                    assert(buf.subrange(pos, pos + e.len())[t] == e[t]);
                }
            }
            assert forall|i: int| 0 <= i < content.len() implies content[i] != 13u8 by {
                if i > 0 {
                    assert(content[i] == d[i - 1]);
                }
            }
            lemma_read_line_of(buf, pos, content);
            assert(content.skip(1) =~= d);
            lemma_ascii_valid_utf8(d);
            text::lemma_decimal(items.len());
            assert(d[0] != 45u8);
            assert(d != wire::minus_one());
            lemma_encode_frames_len(items);
            text::lemma_parse_unsigned_decimal(items.len());
            let next = pos + content.len() + 2;
            assert(buf.subrange(next, next + rest.len()) =~= rest) by {
                assert forall|t: int| 0 <= t < rest.len() implies buf.subrange(
                    next,
                    next + rest.len(),
                )[t] == rest[t] by {
                    assert(buf.subrange(pos, pos + e.len())[next - pos + t] == buf[next + t]);
                }
            }
            assert(decreases_to!(f => f->Array_0));
            assert(decreases_to!(f->Array_0 => f->Array_0->Some_0));
            law_read_frames_of_encoded(items, buf, next);
        },
    }
}

/// Frames written one after another are read back one after another.
pub proof fn law_read_frames_of_encoded(items: Seq<Frame>, buf: Seq<u8>, pos: int)
    requires
        all_transmissible(items),
        0 <= pos,
        pos + wire::encode_frames(items).len() <= buf.len(),
        buf.len() <= usize::MAX,
        buf.subrange(pos, pos + wire::encode_frames(items).len()) == wire::encode_frames(items),
    ensures
        wire::read_frames(buf, pos, items.len()) == Ok::<(Seq<Frame>, int), Failure>(
            (items, pos + wire::encode_frames(items).len()),
        ),
    decreases items, 1int,
{
    if items.len() > 0 {
        let all = wire::encode_frames(items);
        let first = wire::encode_frame(items[0]);
        let tail = wire::encode_frames(items.drop_first());
        assert(all == first + tail);
        assert(buf.subrange(pos, pos + first.len()) =~= first) by {
            assert forall|t: int| 0 <= t < first.len() implies buf.subrange(
                pos,
                pos + first.len(),
            )[t] == first[t] by {
                assert(buf.subrange(pos, pos + all.len())[t] == all[t]);
            }
        }
        let next = pos + first.len();
        assert(buf.subrange(next, next + tail.len()) =~= tail) by {
            assert forall|t: int| 0 <= t < tail.len() implies buf.subrange(
                next,
                next + tail.len(),
            )[t] == tail[t] by {
                assert(buf.subrange(pos, pos + all.len())[first.len() + t] == all[first.len()
                    + t]);
            }
        }
        lemma_encode_frame_len(items[0]);
        law_read_frame_of_encoded(items[0], buf, pos);
        vstd::seq::axiom_seq_subrange_decreases(items, 1, items.len() as int);
        law_read_frames_of_encoded(items.drop_first(), buf, next);
        assert(seq![items[0]] + items.drop_first() =~= items);
        assert(((items.len() - 1) as nat) == items.drop_first().len());
        let r = wire::read_frame(buf, pos);
        assert(r.result == Ok::<Frame, Failure>(items[0]));
        assert(r.pos == next);
        assert(wire::read_frames(buf, next, (items.len() - 1) as nat) == Ok::<(Seq<Frame>, int), Failure>(
            (items.drop_first(), next + tail.len()),
        ));
    } else {
        assert(items =~= Seq::<Frame>::empty());
    }
}

/// Writing a frame and reading the bytes back gives the frame, and the whole
/// of the bytes is consumed.
pub proof fn law_encode_then_read(f: Frame)
    requires
        transmissible(f),
        wire::encode_frame(f).len() <= usize::MAX,
    ensures
        wire::read_frame(wire::encode_frame(f), 0) == wire::reading(
            Ok(f),
            wire::encode_frame(f).len() as int,
        ),
{
    let e = wire::encode_frame(f);
    assert(e.subrange(0, e.len() as int) =~= e);
    law_read_frame_of_encoded(f, e, 0);
}


/// Finding the first `\r` does not change when bytes are appended, once one
/// has been found.
proof fn lemma_first_cr_extends(buf: Seq<u8>, more: Seq<u8>, i: int)
    requires
        0 <= i,
        wire::first_cr(buf, i) < buf.len(),
    ensures
        wire::first_cr(buf + more, i) == wire::first_cr(buf, i),
    decreases buf.len() - i,
{
    assert((buf + more)[i] == buf[i]);
    if buf[i] != 13u8 {
        lemma_first_cr_extends(buf, more, i + 1);
    }
}

/// A line that was read, or rejected, stays so when bytes are appended.
proof fn lemma_read_line_extends(buf: Seq<u8>, more: Seq<u8>, pos: int)
    requires
        0 <= pos,
        wire::read_line_at(buf, pos) != Err::<(Seq<u8>, int), Failure>(Failure::Incomplete),
    ensures
        wire::read_line_at(buf + more, pos) == wire::read_line_at(buf, pos),
{
    let i = wire::first_cr(buf, pos);
    crate::resp::parser::lemma_first_cr(buf, pos);
    assert(i + 1 < buf.len());
    lemma_first_cr_extends(buf, more, pos);
    assert((buf + more)[i + 1] == buf[i + 1]);
    assert((buf + more).subrange(pos, i) =~= buf.subrange(pos, i));
}

/// Appending bytes to a buffer never changes what was read from it, unless
/// the reading was `Incomplete`: a value, or a protocol error, found in a
/// prefix of the stream stays what it is when the rest of the stream arrives.
pub proof fn law_read_frame_extends(buf: Seq<u8>, more: Seq<u8>, pos: int)
    requires
        wire::read_frame(buf, pos).result != Err::<Frame, Failure>(Failure::Incomplete),
    ensures
        wire::read_frame(buf + more, pos) == wire::read_frame(buf, pos),
    decreases buf.len() - pos, 0int, 0nat,
{
    let ext = buf + more;
    if 0 <= pos < buf.len() {
        assert(ext[pos] == buf[pos]);
        if wire::read_line_at(buf, pos) != Err::<(Seq<u8>, int), Failure>(Failure::Incomplete) {
            lemma_read_line_extends(buf, more, pos);
        }
        if buf[pos] == 36u8 && wire::read_line_at(buf, pos) is Ok {
            crate::resp::parser::lemma_read_line_at(buf, pos);
            let (line, next) = wire::read_line_at(buf, pos)->Ok_0;
            let body = line.skip(1);
            if body != wire::minus_one() && valid_utf8(body) {
                if let Some(n) = text::parse_unsigned(body) {
                    let end = next + n;
                    if end <= usize::MAX && end + 2 <= buf.len() {
                        assert(ext[end] == buf[end]);
                        assert(ext[end + 1] == buf[end + 1]);
                        assert(ext.subrange(next, end) =~= buf.subrange(next, end));
                    }
                }
            }
        } else if buf[pos] == 42u8 && wire::read_line_at(buf, pos) is Ok {
            let (line, next) = wire::read_line_at(buf, pos)->Ok_0;
            let body = line.skip(1);
            if body != wire::minus_one() && valid_utf8(body) {
                if let Some(n) = text::parse_unsigned(body) {
                    if n <= buf.len() - next && next > pos {
                        law_read_frames_extends(buf, more, next, n);
                    }
                }
            }
        }
    }
}

/// Reading several values, when it did not run out of bytes, reads the same
/// once more bytes are appended.
pub proof fn law_read_frames_extends(buf: Seq<u8>, more: Seq<u8>, pos: int, count: nat)
    requires
        wire::read_frames(buf, pos, count) != Err::<(Seq<Frame>, int), Failure>(
            Failure::Incomplete,
        ),
    ensures
        wire::read_frames(buf + more, pos, count) == wire::read_frames(buf, pos, count),
    decreases buf.len() - pos, 1int, count,
{
    if count > 0 {
        let r = wire::read_frame(buf, pos);
        law_read_frame_extends(buf, more, pos);
        if r.result is Ok && pos < r.pos <= buf.len() {
            law_read_frames_extends(buf, more, r.pos, (count - 1) as nat);
        }
    }
}

/// A reading that runs out of bytes leaves the cursor where it was, so the
/// same position can be read again once more bytes have arrived.
pub proof fn law_incomplete_keeps_cursor(buf: Seq<u8>, pos: int)
    requires
        wire::read_frame(buf, pos).result == Err::<Frame, Failure>(Failure::Incomplete),
    ensures
        wire::read_frame(buf, pos).pos == pos,
{
}

/// A bulk string written at `p` is read back as one argument of a command.
proof fn lemma_read_arg_of_encoded(a: Seq<u8>, buf: Seq<u8>, p: int)
    requires
        0 <= p,
        a.len() <= wire::max_arg_len(),
        p + wire::encode_frame(Frame::Bulk(Some(a))).len() <= buf.len(),
        buf.subrange(p, p + wire::encode_frame(Frame::Bulk(Some(a))).len()) == wire::encode_frame(
            Frame::Bulk(Some(a)),
        ),
    ensures
        wire::read_arg(buf, p) == Ok::<(Seq<u8>, int), Failure>(
            (a, p + wire::encode_frame(Frame::Bulk(Some(a))).len()),
        ),
{
    let e = wire::encode_frame(Frame::Bulk(Some(a)));
    let d = text::decimal(a.len());
    let content = seq![36u8] + d;
    lemma_decimal_bytes(a.len());
    assert(e =~= content + wire::crlf() + a + wire::crlf());
    assert(buf[p] == e[0]) by {
        assert(buf.subrange(p, p + e.len())[0] == buf[p]);
    }
    assert(buf.subrange(p, p + content.len() + 2) =~= content + wire::crlf()) by {
        assert forall|t: int| 0 <= t < content.len() + 2 implies buf.subrange(
            p,
            p + content.len() + 2,
        )[t] == (content + wire::crlf())[t] by {
            assert(buf.subrange(p, p + e.len())[t] == e[t]);
        }
    }
    assert forall|i: int| 0 <= i < content.len() implies content[i] != 13u8 by {
        if i > 0 {
            assert(content[i] == d[i - 1]);
        }
    }
    lemma_read_line_of(buf, p, content);
    assert(content.skip(1) =~= d);
    text::lemma_parse_signed_decimal(a.len() as int);
    assert(text::signed_decimal(a.len() as int) == d);
    let next = p + content.len() + 2;
    let end = next + a.len();
    assert(buf[end] == e[end - p]) by {
        assert(buf.subrange(p, p + e.len())[end - p] == buf[end]);
    }
    assert(buf[end + 1] == e[end + 1 - p]) by {
        assert(buf.subrange(p, p + e.len())[end + 1 - p] == buf[end + 1]);
    }
    assert(buf.subrange(next, end) =~= a) by {
        assert forall|t: int| 0 <= t < a.len() implies buf.subrange(next, end)[t] == a[t] by {
            assert(buf.subrange(p, p + e.len())[next - p + t] == buf[next + t]);
        }
    }
}

/// Bulk strings written one after another are read back as that many
/// arguments.
proof fn lemma_read_args_of_encoded(args: Seq<Seq<u8>>, buf: Seq<u8>, p: int)
    requires
        0 <= p,
        forall|i: int| 0 <= i < args.len() ==> (#[trigger] args[i]).len() <= wire::max_arg_len(),
        p + wire::encode_frames(wire::bulks(args)).len() <= buf.len(),
        buf.subrange(p, p + wire::encode_frames(wire::bulks(args)).len()) == wire::encode_frames(
            wire::bulks(args),
        ),
    ensures
        wire::read_args(buf, p, args.len()) == Ok::<(Seq<Seq<u8>>, int), Failure>(
            (args, p + wire::encode_frames(wire::bulks(args)).len()),
        ),
    decreases args.len(),
{
    if args.len() > 0 {
        let items = wire::bulks(args);
        let all = wire::encode_frames(items);
        let first = wire::encode_frame(items[0]);
        let tail = wire::encode_frames(items.drop_first());
        assert(items.drop_first() =~= wire::bulks(args.drop_first()));
        assert(all == first + tail);
        assert(buf.subrange(p, p + first.len()) =~= first) by {
            assert forall|t: int| 0 <= t < first.len() implies buf.subrange(p, p + first.len())[t]
                == first[t] by {
                assert(buf.subrange(p, p + all.len())[t] == all[t]);
            }
        }
        let next = p + first.len();
        assert(buf.subrange(next, next + tail.len()) =~= tail) by {
            assert forall|t: int| 0 <= t < tail.len() implies buf.subrange(next, next + tail.len())[t]
                == tail[t] by {
                assert(buf.subrange(p, p + all.len())[first.len() + t] == all[first.len() + t]);
            }
        }
        assert(args[0].len() <= wire::max_arg_len());
        lemma_read_arg_of_encoded(args[0], buf, p);
        assert forall|i: int| 0 <= i < args.drop_first().len() implies (
        #[trigger] args.drop_first()[i]).len() <= wire::max_arg_len() by {
            assert(args.drop_first()[i] == args[i + 1]);
        }
        lemma_read_args_of_encoded(args.drop_first(), buf, next);
        assert(seq![args[0]] + args.drop_first() =~= args);
        assert(((args.len() - 1) as nat) == args.drop_first().len());
    } else {
        assert(args =~= Seq::<Seq<u8>>::empty());
    }
}

/// A command written as a RESP array of bulk strings, as clients send one, is
/// read back as exactly those arguments, wherever it stands in the stream and
/// whatever follows it, with the cursor just past its bytes.
pub proof fn law_read_command_of_encoded(args: Seq<Seq<u8>>, buf: Seq<u8>, pos: int)
    requires
        args.len() <= wire::max_arg_count(),
        forall|i: int| 0 <= i < args.len() ==> (#[trigger] args[i]).len() <= wire::max_arg_len(),
        0 <= pos,
        pos + wire::encode_frame(Frame::Array(Some(wire::bulks(args)))).len() <= buf.len(),
        buf.subrange(pos, pos + wire::encode_frame(Frame::Array(Some(wire::bulks(args)))).len())
            == wire::encode_frame(Frame::Array(Some(wire::bulks(args)))),
    ensures
        wire::read_command(buf, pos) == wire::reading(
            Ok(Frame::Array(Some(wire::bulks(args)))),
            pos + wire::encode_frame(Frame::Array(Some(wire::bulks(args)))).len(),
        ),
{
    let items = wire::bulks(args);
    let e = wire::encode_frame(Frame::Array(Some(items)));
    let d = text::decimal(items.len());
    let content = seq![42u8] + d;
    let rest = wire::encode_frames(items);
    lemma_decimal_bytes(items.len());
    assert(e =~= content + wire::crlf() + rest);
    assert(buf[pos] == e[0]) by {
        assert(buf.subrange(pos, pos + e.len())[0] == buf[pos]);
    }
    assert(buf.subrange(pos, pos + content.len() + 2) =~= content + wire::crlf()) by {
        assert forall|t: int| 0 <= t < content.len() + 2 implies buf.subrange(
            pos,
            pos + content.len() + 2,
        )[t] == (content + wire::crlf())[t] by {
            assert(buf.subrange(pos, pos + e.len())[t] == e[t]);
        }
    }
    assert forall|i: int| 0 <= i < content.len() implies content[i] != 13u8 by {
        if i > 0 {
            assert(content[i] == d[i - 1]);
        }
    }
    lemma_read_line_of(buf, pos, content);
    assert(content.skip(1) =~= d);
    text::lemma_parse_signed_decimal(items.len() as int);
    assert(text::signed_decimal(items.len() as int) == d);
    let next = pos + content.len() + 2;
    assert(buf.subrange(next, next + rest.len()) =~= rest) by {
        assert forall|t: int| 0 <= t < rest.len() implies buf.subrange(next, next + rest.len())[t]
            == rest[t] by {
            assert(buf.subrange(pos, pos + e.len())[next - pos + t] == buf[next + t]);
        }
    }
    lemma_read_args_of_encoded(args, buf, next);
    assert(items.len() == args.len());
}

/// An inline command line reads as the very frame that a client sending the
/// same arguments as a RESP array of bulk strings would produce, so nothing
/// after the parser can tell the two formats apart.
pub proof fn law_inline_reads_like_an_array(line: Seq<u8>, args: Seq<Seq<u8>>)
    requires
        line.len() > 0,
        line[0] != 42u8,
        forall|i: int| 0 <= i < line.len() ==> line[i] != 13u8,
        wire::split_args(line) == Some(args),
        0 < args.len() <= wire::max_arg_count(),
        forall|i: int| 0 <= i < args.len() ==> (#[trigger] args[i]).len() <= wire::max_arg_len(),
    ensures
        ({
            let frame = Frame::Array(Some(wire::bulks(args)));
            &&& wire::read_command(line + wire::crlf(), 0) == wire::reading(
                Ok(frame),
                line.len() as int + 2,
            )
            &&& wire::read_command(wire::encode_frame(frame), 0) == wire::reading(
                Ok(frame),
                wire::encode_frame(frame).len() as int,
            )
        }),
{
    let buf = line + wire::crlf();
    assert(buf.subrange(0, line.len() as int + 2) =~= line + wire::crlf());
    lemma_read_line_of(buf, 0, line);
    assert(buf[0] == line[0]);
    let e = wire::encode_frame(Frame::Array(Some(wire::bulks(args))));
    assert(e.subrange(0, e.len() as int) =~= e);
    law_read_command_of_encoded(args, e, 0);
}

/// A command reading that stopped only because the buffer ended: bytes are
/// missing, or a line has run past `max_line_len` without its end arriving.
pub open spec fn cut_short(r: Result<Frame, Failure>) -> bool {
    ||| r == Err::<Frame, Failure>(Failure::Incomplete)
    ||| r == Err::<Frame, Failure>(Failure::Protocol(wire::msg_too_big_count_line()))
    ||| r == Err::<Frame, Failure>(Failure::Protocol(wire::msg_too_big_length_line()))
    ||| r == Err::<Frame, Failure>(Failure::Protocol(wire::msg_too_big_inline()))
}

/// One argument that was read, or refused for a reason other than where the
/// buffer ends, stays so when bytes are appended.
proof fn lemma_read_arg_extends(buf: Seq<u8>, more: Seq<u8>, p: int)
    requires
        wire::read_arg(buf, p) != Err::<(Seq<u8>, int), Failure>(Failure::Incomplete),
        wire::read_arg(buf, p) != Err::<(Seq<u8>, int), Failure>(
            Failure::Protocol(wire::msg_too_big_length_line()),
        ),
    ensures
        wire::read_arg(buf + more, p) == wire::read_arg(buf, p),
{
    let ext = buf + more;
    assert(ext[p] == buf[p]);
    if buf[p] == 36u8 {
        lemma_read_line_extends(buf, more, p);
        if let Ok((line, next)) = wire::read_line_at(buf, p) {
            crate::resp::parser::lemma_first_cr(buf, p);
            if let Some(n) = text::parse_signed(line.skip(1)) {
                if 0 <= n <= wire::max_arg_len() && next + n + 2 <= buf.len() {
                    assert(ext[next + n] == buf[next + n]);
                    assert(ext[next + n + 1] == buf[next + n + 1]);
                    assert(ext.subrange(next, next + n) =~= buf.subrange(next, next + n));
                }
            }
        }
    }
}

/// Reading arguments, when it did not stop at the end of the buffer, reads
/// the same once more bytes are appended.
proof fn lemma_read_args_extends(buf: Seq<u8>, more: Seq<u8>, p: int, count: nat)
    requires
        wire::read_args(buf, p, count) != Err::<(Seq<Seq<u8>>, int), Failure>(Failure::Incomplete),
        wire::read_args(buf, p, count) != Err::<(Seq<Seq<u8>>, int), Failure>(
            Failure::Protocol(wire::msg_too_big_length_line()),
        ),
    ensures
        wire::read_args(buf + more, p, count) == wire::read_args(buf, p, count),
    decreases count,
{
    if count > 0 {
        lemma_read_arg_extends(buf, more, p);
        if let Ok((a, p2)) = wire::read_arg(buf, p) {
            lemma_read_args_extends(buf, more, p2, (count - 1) as nat);
        }
    }
}

/// Reading a command, when it did not stop at the end of the buffer, reads
/// the same once more bytes are appended: a command, or a protocol error,
/// found in a prefix of the stream stays what it is when the rest arrives.
pub proof fn law_read_command_extends(buf: Seq<u8>, more: Seq<u8>, pos: int)
    requires
        !cut_short(wire::read_command(buf, pos).result),
    ensures
        wire::read_command(buf + more, pos) == wire::read_command(buf, pos),
    decreases buf.len() - pos,
{
    let ext = buf + more;
    if 0 <= pos < buf.len() {
        assert(ext[pos] == buf[pos]);
        crate::resp::parser::lemma_first_cr(buf, pos);
        lemma_read_line_extends(buf, more, pos);
        if let Ok((line, next)) = wire::read_line_at(buf, pos) {
            if buf[pos] == 42u8 {
                if let Some(n) = text::parse_signed(line.skip(1)) {
                    if n <= wire::max_arg_count() {
                        if n < 0 {
                            if next > pos {
                                law_read_command_extends(buf, more, next);
                            }
                        } else {
                            lemma_read_args_extends(buf, more, next, n as nat);
                        }
                    }
                }
            } else if let Some(ws) = wire::split_args(line) {
                if ws.len() == 0 && next > pos {
                    law_read_command_extends(buf, more, next);
                }
            }
        }
    }
}

/// When reading a command runs out of bytes, the cursor it leaves behind
/// (past any blank lines and negative counts it skipped) is as good a place to
/// resume as where it started: once more bytes have arrived, reading from
/// either gives the same command.
pub proof fn law_command_resumes_after_incomplete(buf: Seq<u8>, more: Seq<u8>, pos: int)
    requires
        wire::read_command(buf, pos).result == Err::<Frame, Failure>(Failure::Incomplete),
    ensures
        wire::read_command(buf + more, pos) == wire::read_command(
            buf + more,
            wire::read_command(buf, pos).pos,
        ),
    decreases buf.len() - pos,
{
    let ext = buf + more;
    if 0 <= pos < buf.len() {
        assert(ext[pos] == buf[pos]);
        crate::resp::parser::lemma_first_cr(buf, pos);
        if let Ok((line, next)) = wire::read_line_at(buf, pos) {
            lemma_read_line_extends(buf, more, pos);
            if buf[pos] == 42u8 {
                if let Some(n) = text::parse_signed(line.skip(1)) {
                    if n < 0 && next > pos {
                        law_command_resumes_after_incomplete(buf, more, next);
                    }
                }
            } else if let Some(ws) = wire::split_args(line) {
                if ws.len() == 0 && next > pos {
                    law_command_resumes_after_incomplete(buf, more, next);
                }
            }
        }
    }
}

/// With no `\r` from `i` to the end, the search for one runs off the end.
proof fn lemma_first_cr_none(buf: Seq<u8>, i: int)
    requires
        0 <= i <= buf.len(),
        forall|t: int| i <= t < buf.len() ==> buf[t] != 13u8,
    ensures
        wire::first_cr(buf, i) == buf.len(),
    decreases buf.len() - i,
{
    if i < buf.len() {
        lemma_first_cr_none(buf, i + 1);
    }
}

/// A line whose content holds no `\r`, cut off before its `\r\n` is
/// complete at the end of the buffer, is not all there yet.
proof fn lemma_line_cut(buf: Seq<u8>, pos: int, content: Seq<u8>)
    requires
        0 <= pos <= buf.len() < pos + content.len() + 2,
        forall|t: int| pos <= t < buf.len() ==> buf[t] == (content + wire::crlf())[t - pos],
        forall|i: int| 0 <= i < content.len() ==> content[i] != 13u8,
    ensures
        wire::read_line_at(buf, pos) == Err::<(Seq<u8>, int), Failure>(Failure::Incomplete),
{
    if buf.len() <= pos + content.len() {
        assert forall|t: int| pos <= t < buf.len() implies buf[t] != 13u8 by {
            assert(buf[t] == content[t - pos]);
        }
        lemma_first_cr_none(buf, pos);
    } else {
        let j = buf.len() - 1;
        assert forall|t: int| pos <= t < j implies buf[t] != 13u8 by {
            assert(buf[t] == content[t - pos]);
        }
        assert(buf[j] == (content + wire::crlf())[j - pos]);
        lemma_first_cr_at(buf, pos, j);
    }
}

/// A frame whose bytes are cut off anywhere before their end, with nothing
/// after them, reads as `Incomplete` and leaves the cursor where the frame
/// starts: a frame cut short by the network is never a protocol error and
/// never a shorter frame.
pub proof fn law_read_frame_of_truncated(f: Frame, buf: Seq<u8>, pos: int)
    requires
        transmissible(f),
        0 <= pos <= buf.len() < pos + wire::encode_frame(f).len(),
        pos + wire::encode_frame(f).len() <= usize::MAX,
        buf.subrange(pos, buf.len() as int) == wire::encode_frame(f).take(buf.len() - pos),
    ensures
        wire::read_frame(buf, pos) == wire::reading(Err(Failure::Incomplete), pos),
    decreases f, 0int,
{
    let e = wire::encode_frame(f);
    if pos == buf.len() {
        return;
    }
    assert forall|t: int| pos <= t < buf.len() implies buf[t] == e[t - pos] by {
        assert(buf.subrange(pos, buf.len() as int)[t - pos] == buf[t]);
        assert(e.take(buf.len() - pos)[t - pos] == e[t - pos]);
    }
    assert(buf[pos] == e[0]);
    match f {
        Frame::Simple(s) => {
            lemma_encode_utf8_no_cr(s);
            let content = seq![43u8] + encode_utf8(s);
            assert(e =~= content + wire::crlf());
            assert forall|i: int| 0 <= i < content.len() implies content[i] != 13u8 by {
                if i > 0 {
                    assert(content[i] == encode_utf8(s)[i - 1]);
                    if encode_utf8(s)[i - 1] == 13u8 {
                        assert(encode_utf8(s).contains(encode_utf8(s)[i - 1]));
                    }
                }
            }
            lemma_line_cut(buf, pos, content);
        },
        Frame::Error(s) => {
            lemma_encode_utf8_no_cr(s);
            let content = seq![45u8] + encode_utf8(s);
            assert(e =~= content + wire::crlf());
            assert forall|i: int| 0 <= i < content.len() implies content[i] != 13u8 by {
                if i > 0 {
                    assert(content[i] == encode_utf8(s)[i - 1]);
                    if encode_utf8(s)[i - 1] == 13u8 {
                        assert(encode_utf8(s).contains(encode_utf8(s)[i - 1]));
                    }
                }
            }
            lemma_line_cut(buf, pos, content);
        },
        Frame::Integer(n) => {
            let d = text::signed_decimal(n);
            let content = seq![58u8] + d;
            assert(e =~= content + wire::crlf());
            if n < 0 {
                lemma_decimal_bytes((-n) as nat);
                assert forall|i: int| 0 <= i < d.len() implies d[i] != 13u8 by {
                    if i > 0 {
                        assert(d[i] == text::decimal((-n) as nat)[i - 1]);
                    }
                }
            } else {
                lemma_decimal_bytes(n as nat);
            }
            assert forall|i: int| 0 <= i < content.len() implies content[i] != 13u8 by {
                if i > 0 {
                    assert(content[i] == d[i - 1]);
                }
            }
            lemma_line_cut(buf, pos, content);
        },
        Frame::Bulk(None) => {
            let content = seq![36u8] + wire::minus_one();
            assert(e =~= content + wire::crlf());
            lemma_line_cut(buf, pos, content);
        },
        Frame::Array(None) => {
            let content = seq![42u8] + wire::minus_one();
            assert(e =~= content + wire::crlf());
            lemma_line_cut(buf, pos, content);
        },
        Frame::Bulk(Some(b)) => {
            let d = text::decimal(b.len());
            let content = seq![36u8] + d;
            lemma_decimal_bytes(b.len());
            assert(e =~= content + wire::crlf() + b + wire::crlf());
            assert forall|i: int| 0 <= i < content.len() implies content[i] != 13u8 by {
                if i > 0 {
                    assert(content[i] == d[i - 1]);
                }
            }
            if buf.len() < pos + content.len() + 2 {
                assert forall|t: int| pos <= t < buf.len() implies buf[t] == (content
                    + wire::crlf())[t - pos] by {
                    assert(e[t - pos] == (content + wire::crlf())[t - pos]);
                }
                lemma_line_cut(buf, pos, content);
            } else {
                assert(buf.subrange(pos, pos + content.len() + 2) =~= content + wire::crlf()) by {
                    assert forall|t: int| 0 <= t < content.len() + 2 implies buf.subrange(
                        pos,
                        pos + content.len() + 2,
                    )[t] == (content + wire::crlf())[t] by {
                        assert(buf[pos + t] == e[t]);
                    }
                }
                lemma_read_line_of(buf, pos, content);
                assert(content.skip(1) =~= d);
                lemma_ascii_valid_utf8(d);
                text::lemma_decimal(b.len());
                assert(d[0] != 45u8);
                assert(d != wire::minus_one());
                text::lemma_parse_unsigned_decimal(b.len());
            }
        },
        Frame::Array(Some(items)) => {
            let d = text::decimal(items.len());
            let content = seq![42u8] + d;
            let rest = wire::encode_frames(items);
            lemma_decimal_bytes(items.len());
            assert(e =~= content + wire::crlf() + rest);
            assert forall|i: int| 0 <= i < content.len() implies content[i] != 13u8 by {
                if i > 0 {
                    assert(content[i] == d[i - 1]);
                }
            }
            if buf.len() < pos + content.len() + 2 {
                assert forall|t: int| pos <= t < buf.len() implies buf[t] == (content
                    + wire::crlf())[t - pos] by {
                    assert(e[t - pos] == (content + wire::crlf())[t - pos]);
                }
                lemma_line_cut(buf, pos, content);
            } else {
                assert(buf.subrange(pos, pos + content.len() + 2) =~= content + wire::crlf()) by {
                    assert forall|t: int| 0 <= t < content.len() + 2 implies buf.subrange(
                        pos,
                        pos + content.len() + 2,
                    )[t] == (content + wire::crlf())[t] by {
                        assert(buf[pos + t] == e[t]);
                    }
                }
                lemma_read_line_of(buf, pos, content);
                assert(content.skip(1) =~= d);
                lemma_ascii_valid_utf8(d);
                text::lemma_decimal(items.len());
                assert(d[0] != 45u8);
                assert(d != wire::minus_one());
                lemma_encode_frames_len(items);
                text::lemma_parse_unsigned_decimal(items.len());
                let next = pos + content.len() + 2;
                if items.len() <= buf.len() - next {
                    assert(buf.subrange(next, buf.len() as int) =~= rest.take(buf.len() - next)) by {
                        assert forall|t: int| 0 <= t < buf.len() - next implies buf.subrange(
                            next,
                            buf.len() as int,
                        )[t] == rest.take(buf.len() - next)[t] by {
                            assert(buf[next + t] == e[next - pos + t]);
                        }
                    }
                    assert(decreases_to!(f => f->Array_0));
                    assert(decreases_to!(f->Array_0 => f->Array_0->Some_0));
                    lemma_read_frames_of_truncated(items, buf, next);
                }
            }
        },
    }
}

/// Frames written one after another and cut off before the last one ends
/// read as `Incomplete`.
proof fn lemma_read_frames_of_truncated(items: Seq<Frame>, buf: Seq<u8>, pos: int)
    requires
        all_transmissible(items),
        0 <= pos <= buf.len() < pos + wire::encode_frames(items).len(),
        pos + wire::encode_frames(items).len() <= usize::MAX,
        buf.subrange(pos, buf.len() as int) == wire::encode_frames(items).take(buf.len() - pos),
    ensures
        wire::read_frames(buf, pos, items.len()) == Err::<(Seq<Frame>, int), Failure>(
            Failure::Incomplete,
        ),
    decreases items, 1int,
{
    let all = wire::encode_frames(items);
    assert(items.len() > 0);
    let first = wire::encode_frame(items[0]);
    let tail = wire::encode_frames(items.drop_first());
    assert(all == first + tail);
    assert forall|t: int| pos <= t < buf.len() implies buf[t] == all[t - pos] by {
        assert(buf.subrange(pos, buf.len() as int)[t - pos] == buf[t]);
        assert(all.take(buf.len() - pos)[t - pos] == all[t - pos]);
    }
    lemma_encode_frame_len(items[0]);
    if buf.len() < pos + first.len() {
        assert(buf.subrange(pos, buf.len() as int) =~= first.take(buf.len() - pos)) by {
            assert forall|t: int| 0 <= t < buf.len() - pos implies buf.subrange(
                pos,
                buf.len() as int,
            )[t] == first.take(buf.len() - pos)[t] by {
                assert(buf[pos + t] == all[t]);
            }
        }
        law_read_frame_of_truncated(items[0], buf, pos);
    } else {
        assert(buf.subrange(pos, pos + first.len()) =~= first) by {
            assert forall|t: int| 0 <= t < first.len() implies buf.subrange(pos, pos + first.len())[t]
                == first[t] by {
                assert(buf[pos + t] == all[t]);
            }
        }
        law_read_frame_of_encoded(items[0], buf, pos);
        let next = pos + first.len();
        assert(buf.subrange(next, buf.len() as int) =~= tail.take(buf.len() - next)) by {
            assert forall|t: int| 0 <= t < buf.len() - next implies buf.subrange(
                next,
                buf.len() as int,
            )[t] == tail.take(buf.len() - next)[t] by {
                assert(buf[next + t] == all[first.len() + t]);
            }
        }
        vstd::seq::axiom_seq_subrange_decreases(items, 1, items.len() as int);
        lemma_read_frames_of_truncated(items.drop_first(), buf, next);
        assert(((items.len() - 1) as nat) == items.drop_first().len());
    }
}

/// Every strict prefix of what a frame is written as reads as `Incomplete`,
/// with the cursor left at the start.
pub proof fn law_encoding_cut_short_is_incomplete(f: Frame, k: int)
    requires
        transmissible(f),
        0 <= k < wire::encode_frame(f).len(),
        wire::encode_frame(f).len() <= usize::MAX,
    ensures
        wire::read_frame(wire::encode_frame(f).take(k), 0) == wire::reading(
            Err(Failure::Incomplete),
            0,
        ),
{
    let buf = wire::encode_frame(f).take(k);
    assert(buf.subrange(0, buf.len() as int) =~= wire::encode_frame(f).take(buf.len() as int));
    law_read_frame_of_truncated(f, buf, 0);
}

/// Ten to the power `k`.
spec fn ten_to(k: nat) -> nat
    decreases k,
{
    if k == 0 {
        1
    } else {
        10 * ten_to((k - 1) as nat)
    }
}

/// A number below `10^k` is spelled with at most `k` digits.
proof fn lemma_decimal_len(n: nat, k: nat)
    requires
        1 <= k,
        n < ten_to(k),
    ensures
        text::decimal(n).len() <= k,
    decreases k,
{
    if n >= 10 {
        reveal_with_fuel(ten_to, 2);
        assert(k >= 2);
        let t = ten_to((k - 1) as nat);
        assert(n / 10 < t) by (nonlinear_arith)
            requires
                n < 10 * t,
        ;
        lemma_decimal_len(n / 10, (k - 1) as nat);
    }
}

/// The length lines of a command are far shorter than `max_line_len`.
proof fn lemma_header_len(n: nat)
    requires
        n <= wire::max_arg_len(),
    ensures
        text::decimal(n).len() <= 10,
{
    reveal_with_fuel(ten_to, 11);
    lemma_decimal_len(n, 10);
}

/// One argument cut off before its end, at the end of the buffer, is not
/// all there yet.
proof fn lemma_read_arg_of_truncated(a: Seq<u8>, buf: Seq<u8>, p: int)
    requires
        a.len() <= wire::max_arg_len(),
        0 <= p <= buf.len() < p + wire::encode_frame(Frame::Bulk(Some(a))).len(),
        buf.subrange(p, buf.len() as int) == wire::encode_frame(Frame::Bulk(Some(a))).take(
            buf.len() - p,
        ),
    ensures
        wire::read_arg(buf, p) == Err::<(Seq<u8>, int), Failure>(Failure::Incomplete),
{
    if p < buf.len() {
        let e = wire::encode_frame(Frame::Bulk(Some(a)));
        assert forall|t: int| p <= t < buf.len() implies buf[t] == e[t - p] by {
            assert(buf.subrange(p, buf.len() as int)[t - p] == buf[t]);
            assert(e.take(buf.len() - p)[t - p] == e[t - p]);
        }
        let d = text::decimal(a.len());
        let content = seq![36u8] + d;
        lemma_decimal_bytes(a.len());
        lemma_header_len(a.len());
        assert(e =~= content + wire::crlf() + a + wire::crlf());
        assert forall|i: int| 0 <= i < content.len() implies content[i] != 13u8 by {
            if i > 0 {
                assert(content[i] == d[i - 1]);
            }
        }
        if buf.len() < p + content.len() + 2 {
            assert forall|t: int| p <= t < buf.len() implies buf[t] == (content + wire::crlf())[t
                - p] by {
                assert(e[t - p] == (content + wire::crlf())[t - p]);
            }
            lemma_line_cut(buf, p, content);
        } else {
            assert(buf.subrange(p, p + content.len() + 2) =~= content + wire::crlf()) by {
                assert forall|t: int| 0 <= t < content.len() + 2 implies buf.subrange(
                    p,
                    p + content.len() + 2,
                )[t] == (content + wire::crlf())[t] by {
                    assert(buf[p + t] == e[t]);
                }
            }
            lemma_read_line_of(buf, p, content);
            assert(content.skip(1) =~= d);
            text::lemma_parse_signed_decimal(a.len() as int);
            assert(text::signed_decimal(a.len() as int) == d);
        }
    }
}

/// Arguments written one after another and cut off before the last one
/// ends are not all there yet.
proof fn lemma_read_args_of_truncated(args: Seq<Seq<u8>>, buf: Seq<u8>, p: int)
    requires
        forall|i: int| 0 <= i < args.len() ==> (#[trigger] args[i]).len() <= wire::max_arg_len(),
        0 <= p <= buf.len() < p + wire::encode_frames(wire::bulks(args)).len(),
        buf.subrange(p, buf.len() as int) == wire::encode_frames(wire::bulks(args)).take(
            buf.len() - p,
        ),
    ensures
        wire::read_args(buf, p, args.len()) == Err::<(Seq<Seq<u8>>, int), Failure>(
            Failure::Incomplete,
        ),
    decreases args.len(),
{
    let items = wire::bulks(args);
    let all = wire::encode_frames(items);
    assert(args.len() > 0);
    let first = wire::encode_frame(items[0]);
    let tail = wire::encode_frames(items.drop_first());
    assert(items.drop_first() =~= wire::bulks(args.drop_first()));
    assert(all == first + tail);
    assert forall|t: int| p <= t < buf.len() implies buf[t] == all[t - p] by {
        assert(buf.subrange(p, buf.len() as int)[t - p] == buf[t]);
        assert(all.take(buf.len() - p)[t - p] == all[t - p]);
    }
    assert(args[0].len() <= wire::max_arg_len());
    if buf.len() < p + first.len() {
        assert(buf.subrange(p, buf.len() as int) =~= first.take(buf.len() - p)) by {
            assert forall|t: int| 0 <= t < buf.len() - p implies buf.subrange(p, buf.len() as int)[t]
                == first.take(buf.len() - p)[t] by {
                assert(buf[p + t] == all[t]);
            }
        }
        lemma_read_arg_of_truncated(args[0], buf, p);
    } else {
        assert(buf.subrange(p, p + first.len()) =~= first) by {
            assert forall|t: int| 0 <= t < first.len() implies buf.subrange(p, p + first.len())[t]
                == first[t] by {
                assert(buf[p + t] == all[t]);
            }
        }
        lemma_read_arg_of_encoded(args[0], buf, p);
        let next = p + first.len();
        assert(buf.subrange(next, buf.len() as int) =~= tail.take(buf.len() - next)) by {
            assert forall|t: int| 0 <= t < buf.len() - next implies buf.subrange(
                next,
                buf.len() as int,
            )[t] == tail.take(buf.len() - next)[t] by {
                assert(buf[next + t] == all[first.len() + t]);
            }
        }
        assert forall|i: int| 0 <= i < args.drop_first().len() implies (
        #[trigger] args.drop_first()[i]).len() <= wire::max_arg_len() by {
            assert(args.drop_first()[i] == args[i + 1]);
        }
        lemma_read_args_of_truncated(args.drop_first(), buf, next);
        assert(((args.len() - 1) as nat) == args.drop_first().len());
    }
}

/// A command sent as a RESP array of bulk strings and cut off anywhere
/// before its end, with nothing after it, reads as `Incomplete` and leaves
/// the cursor where the command starts: however the network splits a
/// command, the parser waits for the rest and never refuses it.
pub proof fn law_read_command_of_truncated(args: Seq<Seq<u8>>, buf: Seq<u8>, pos: int)
    requires
        args.len() <= wire::max_arg_count(),
        forall|i: int| 0 <= i < args.len() ==> (#[trigger] args[i]).len() <= wire::max_arg_len(),
        0 <= pos <= buf.len() < pos + wire::encode_frame(Frame::Array(Some(wire::bulks(args)))).len(),
        buf.subrange(pos, buf.len() as int) == wire::encode_frame(
            Frame::Array(Some(wire::bulks(args))),
        ).take(buf.len() - pos),
    ensures
        wire::read_command(buf, pos) == wire::reading(Err(Failure::Incomplete), pos),
{
    if pos < buf.len() {
        let items = wire::bulks(args);
        let e = wire::encode_frame(Frame::Array(Some(items)));
        assert forall|t: int| pos <= t < buf.len() implies buf[t] == e[t - pos] by {
            assert(buf.subrange(pos, buf.len() as int)[t - pos] == buf[t]);
            assert(e.take(buf.len() - pos)[t - pos] == e[t - pos]);
        }
        let d = text::decimal(items.len());
        let content = seq![42u8] + d;
        let rest = wire::encode_frames(items);
        lemma_decimal_bytes(items.len());
        lemma_header_len(items.len());
        assert(e =~= content + wire::crlf() + rest);
        assert(buf[pos] == e[0]);
        assert forall|i: int| 0 <= i < content.len() implies content[i] != 13u8 by {
            if i > 0 {
                assert(content[i] == d[i - 1]);
            }
        }
        if buf.len() < pos + content.len() + 2 {
            assert forall|t: int| pos <= t < buf.len() implies buf[t] == (content
                + wire::crlf())[t - pos] by {
                assert(e[t - pos] == (content + wire::crlf())[t - pos]);
            }
            lemma_line_cut(buf, pos, content);
        } else {
            assert(buf.subrange(pos, pos + content.len() + 2) =~= content + wire::crlf()) by {
                assert forall|t: int| 0 <= t < content.len() + 2 implies buf.subrange(
                    pos,
                    pos + content.len() + 2,
                )[t] == (content + wire::crlf())[t] by {
                    assert(buf[pos + t] == e[t]);
                }
            }
            lemma_read_line_of(buf, pos, content);
            assert(content.skip(1) =~= d);
            text::lemma_parse_signed_decimal(items.len() as int);
            assert(text::signed_decimal(items.len() as int) == d);
            let next = pos + content.len() + 2;
            assert(buf.subrange(next, buf.len() as int) =~= rest.take(buf.len() - next)) by {
                assert forall|t: int| 0 <= t < buf.len() - next implies buf.subrange(
                    next,
                    buf.len() as int,
                )[t] == rest.take(buf.len() - next)[t] by {
                    assert(buf[next + t] == e[next - pos + t]);
                }
            }
            lemma_read_args_of_truncated(args, buf, next);
            assert(items.len() == args.len());
        }
    }
}

/// Words joined by single spaces.
pub open spec fn spaced(ws: Seq<Seq<u8>>) -> Seq<u8>
    decreases ws.len(),
{
    if ws.len() == 0 {
        Seq::empty()
    } else if ws.len() == 1 {
        ws[0]
    } else {
        ws[0] + seq![32u8] + spaced(ws.drop_first())
    }
}

/// A word that an inline line carries as it is: not empty, and holding no
/// space, no quote and no `\r`. Any other byte, a backslash included, is
/// just a byte of the word.
pub open spec fn bare_word(w: Seq<u8>) -> bool {
    &&& w.len() > 0
    &&& forall|t: int|
        0 <= t < w.len() ==> #[trigger] w[t] != 32u8 && w[t] != 34u8 && w[t] != 39u8 && w[t]
            != 13u8
}

/// Bare words joined by spaces hold no `\r`.
proof fn lemma_spaced_no_cr(ws: Seq<Seq<u8>>)
    requires
        forall|k: int| 0 <= k < ws.len() ==> bare_word(#[trigger] ws[k]),
    ensures
        forall|t: int| 0 <= t < spaced(ws).len() ==> #[trigger] spaced(ws)[t] != 13u8,
    decreases ws.len(),
{
    if ws.len() > 1 {
        let rest = ws.drop_first();
        assert forall|k: int| 0 <= k < rest.len() implies bare_word(#[trigger] rest[k]) by {
            assert(rest[k] == ws[k + 1]);
        }
        lemma_spaced_no_cr(rest);
        let w = ws[0];
        assert(bare_word(ws[0]));
        assert forall|t: int| 0 <= t < spaced(ws).len() implies #[trigger] spaced(ws)[t] != 13u8 by {
            if t < w.len() {
                assert(spaced(ws)[t] == w[t]);
            } else if t > w.len() {
                assert(spaced(ws)[t] == spaced(rest)[t - w.len() - 1]);
            }
        }
    } else if ws.len() == 1 {
        assert(bare_word(ws[0]));
    }
}

/// An unquoted argument runs, byte for byte, up to the next space or the
/// end of the line.
proof fn lemma_arg_from_plain(line: Seq<u8>, i: int, e: int, acc: Seq<u8>)
    requires
        0 <= i <= e <= line.len(),
        forall|t: int| i <= t < e ==> #[trigger] line[t] != 32u8 && line[t] != 34u8 && line[t] != 39u8,
        e == line.len() || line[e] == 32u8,
    ensures
        wire::arg_from(line, i, wire::Quote::Plain, acc) == Some(
            (acc + line.subrange(i, e), if e == line.len() {
                e
            } else {
                e + 1
            }),
        ),
    decreases e - i,
{
    if i == e {
        assert(acc + line.subrange(i, e) =~= acc);
    } else {
        let c = line[i];
        lemma_arg_from_plain(line, i + 1, e, acc.push(c));
        assert(acc.push(c) + line.subrange(i + 1, e) =~= acc + line.subrange(i, e));
    }
}

/// A line holding bare words joined by spaces from `i` on splits into
/// exactly those words.
proof fn lemma_args_from_words(line: Seq<u8>, i: int, ws: Seq<Seq<u8>>)
    requires
        0 <= i <= line.len(),
        line.subrange(i, line.len() as int) == spaced(ws),
        forall|k: int| 0 <= k < ws.len() ==> bare_word(#[trigger] ws[k]),
    ensures
        wire::args_from(line, i) == Some(ws),
    decreases ws.len(),
{
    let tail = line.subrange(i, line.len() as int);
    if ws.len() == 0 {
        assert(tail.len() == 0);
        assert(ws =~= Seq::<Seq<u8>>::empty());
    } else {
        let w = ws[0];
        assert(bare_word(w));
        let e = i + w.len();
        assert(spaced(ws).len() >= w.len()) by {
            if ws.len() > 1 {
                assert(spaced(ws) == w + seq![32u8] + spaced(ws.drop_first()));
            }
        }
        assert forall|t: int| i <= t < e implies #[trigger] line[t] != 32u8 && line[t] != 34u8
            && line[t] != 39u8 by {
            assert(tail[t - i] == line[t]);
            assert(spaced(ws)[t - i] == w[t - i]);
        }
        assert(line[i] == w[0]) by {
            assert(tail[0] == line[i]);
        }
        if ws.len() == 1 {
            assert(e == line.len());
        } else {
            let rest = ws.drop_first();
            assert(spaced(ws) == w + seq![32u8] + spaced(rest));
            assert(line[e] == 32u8) by {
                assert(tail[w.len() as int] == line[e]);
            }
            assert(line.subrange(e + 1, line.len() as int) =~= spaced(rest)) by {
                assert forall|t: int| 0 <= t < spaced(rest).len() implies line.subrange(
                    e + 1,
                    line.len() as int,
                )[t] == spaced(rest)[t] by {
                    assert(tail[w.len() + 1 + t] == line[e + 1 + t]);
                }
            }
            assert forall|k: int| 0 <= k < rest.len() implies bare_word(#[trigger] rest[k]) by {
                assert(rest[k] == ws[k + 1]);
            }
            lemma_args_from_words(line, e + 1, rest);
            assert(seq![w] + rest =~= ws);
        }
        lemma_arg_from_plain(line, i, e, Seq::empty());
        assert(Seq::<u8>::empty() + line.subrange(i, e) =~= w) by {
            assert forall|t: int| 0 <= t < w.len() implies line.subrange(i, e)[t] == w[t] by {
                assert(tail[t] == line[i + t]);
                assert(spaced(ws)[t] == w[t]);
            }
        }
        assert(w[0] != 32u8);
        assert(wire::skip_spaces(line, i) == i);
        if ws.len() == 1 {
            assert(wire::skip_spaces(line, e) == e);
            assert(wire::args_from(line, e) == Some(Seq::<Seq<u8>>::empty()));
            assert(seq![w] + Seq::<Seq<u8>>::empty() =~= ws);
        }
    }
}

/// An inline line of bare words joined by spaces reads as the array of
/// exactly those words, byte for byte and in order, with the cursor past its
/// `\r\n`: nothing in an unquoted word is read as an escape.
pub proof fn law_inline_words_read_as_they_are(ws: Seq<Seq<u8>>)
    requires
        ws.len() > 0,
        forall|k: int| 0 <= k < ws.len() ==> bare_word(#[trigger] ws[k]),
        ws[0][0] != 42u8,
    ensures
        wire::read_command(spaced(ws) + wire::crlf(), 0) == wire::reading(
            Ok(Frame::Array(Some(Seq::new(ws.len(), |k: int| Frame::Bulk(Some(ws[k])))))),
            spaced(ws).len() as int + 2,
        ),
{
    let line = spaced(ws);
    let buf = line + wire::crlf();
    lemma_spaced_no_cr(ws);
    assert(bare_word(ws[0]));
    assert(line.len() > 0 && line[0] == ws[0][0]) by {
        if ws.len() > 1 {
            assert(line == ws[0] + seq![32u8] + spaced(ws.drop_first()));
        }
    }
    assert(buf.subrange(0, line.len() as int + 2) =~= line + wire::crlf());
    lemma_read_line_of(buf, 0, line);
    assert(buf[0] == line[0]);
    assert(line.subrange(0, line.len() as int) =~= line);
    lemma_args_from_words(line, 0, ws);
    assert(wire::bulks(ws) =~= Seq::new(ws.len(), |k: int| Frame::Bulk(Some(ws[k]))));
}

} // verus!
