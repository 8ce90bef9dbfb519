//! Writing RESP2 frames out as bytes.
use crate::resp::parser::{frame_of, frames_of, lemma_frames_of, RespTypes};
use crate::resp::wire::{self, Frame};
use crate::text::{append_bytes, push_decimal, push_signed_decimal};
use vstd::prelude::*;

verus! {

broadcast use vstd::std_specs::vec::group_vec_axioms;

/// Appends `\r\n`.
fn push_crlf(out: &mut Vec<u8>)
    ensures
        final(out)@ == old(out)@ + wire::crlf(),
{
    out.push(13u8);
    out.push(10u8);
    assert(final(out)@ =~= old(out)@ + wire::crlf());
}

/// Turns a `RespTypes` back into the bytes that go out on the socket.
///
/// The opposite of `parse`. There is no `Result`: the value is already valid,
/// so encoding cannot fail.
pub fn encode(value: &RespTypes) -> (r: Vec<u8>)
    ensures
        r@ == wire::encode_frame(value@),
    decreases value,
{
    let mut out: Vec<u8> = Vec::new();
    match value {
        RespTypes::SimpleString(s) => {
            out.push(43u8);
            append_bytes(&mut out, s.as_str().as_bytes());
            push_crlf(&mut out);
        },
        RespTypes::Error(s) => {
            out.push(45u8);
            append_bytes(&mut out, s.as_str().as_bytes());
            push_crlf(&mut out);
        },
        RespTypes::Integer(n) => {
            out.push(58u8);
            push_signed_decimal(&mut out, *n);
            push_crlf(&mut out);
        },
        RespTypes::BulkString(Some(bytes)) => {
            out.push(36u8);
            push_decimal(&mut out, bytes.len() as u64);
            push_crlf(&mut out);
            append_bytes(&mut out, bytes.as_slice());
            push_crlf(&mut out);
        },
        RespTypes::BulkString(None) => {
            out.push(36u8);
            out.push(45u8);
            out.push(49u8);
            push_crlf(&mut out);
        },
        RespTypes::Array(Some(items)) => {
            out.push(42u8);
            push_decimal(&mut out, items.len() as u64);
            push_crlf(&mut out);
            let ghost head = out@;
            let ghost fs = frames_of(items@);
            proof {
                lemma_frames_of(items@);
                assert(fs.take(0) =~= Seq::<Frame>::empty());
            }
            let mut i: usize = 0;
            while i < items.len()
                invariant
                    i <= items@.len(),
                    *value == RespTypes::Array(Some(*items)),
                    fs == frames_of(items@),
                    fs.len() == items@.len(),
                    forall|k: int| 0 <= k < items@.len() ==> #[trigger] fs[k] == frame_of(
                        items@[k],
                    ),
                    out@ == head + wire::encode_frames(fs.take(i as int)),
                decreases items.len() - i,
            {
                proof {
                    assert(decreases_to!(*items => items[i as int]));
                    assert(decreases_to!(*value => (*value)->Array_0));
                    assert(decreases_to!((*value)->Array_0 => (*value)->Array_0->Some_0));
                    assert(decreases_to!(*value => items[i as int]));
                }
                let item_bytes = encode(&items[i]);
                append_bytes(&mut out, item_bytes.as_slice());
                proof {
                    assert(fs.take(i + 1) =~= fs.take(i as int).push(fs[i as int]));
                    wire::lemma_encode_frames_push(fs.take(i as int), fs[i as int]);
                }
                i = i + 1;
            }
            assert(fs.take(i as int) =~= fs);
        },
        RespTypes::Array(None) => {
            out.push(42u8);
            out.push(45u8);
            out.push(49u8);
            push_crlf(&mut out);
        },
    }
    assert(out@ =~= wire::encode_frame(value@));
    out
}

} // verus!
