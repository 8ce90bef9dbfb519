//! Splitting an inline command line into its arguments, shell style.
use crate::resp::wire::{self, Quote};
use vstd::prelude::*;

verus! {

/// The bytes of each argument.
pub open spec fn byte_strings(v: Seq<Vec<u8>>) -> Seq<Seq<u8>> {
    Seq::new(v.len(), |i: int| v[i]@)
}

/// The arguments read before, in front of the rest.
pub open spec fn with_front(done: Seq<Seq<u8>>, rest: Option<Seq<Seq<u8>>>) -> Option<
    Seq<Seq<u8>>,
> {
    match rest {
        Some(r) => Some(done + r),
        None => None,
    }
}

fn is_space_byte(b: u8) -> (r: bool)
    ensures
        r == wire::is_space(b),
{
    b == 32u8
}

fn is_hex_byte(b: u8) -> (r: bool)
    ensures
        r == wire::is_hex(b),
{
    (48u8 <= b && b <= 57u8) || (97u8 <= b && b <= 102u8) || (65u8 <= b && b <= 70u8)
}

fn hex_digit_value(b: u8) -> (r: u8)
    requires
        wire::is_hex(b),
    ensures
        r as int == wire::hex_value(b),
        r < 16,
{
    if 48u8 <= b && b <= 57u8 {
        b - 48
    } else if 97u8 <= b && b <= 102u8 {
        b - 87
    } else {
        b - 55
    }
}

fn unescape_byte(b: u8) -> (r: u8)
    ensures
        r == wire::unescaped(b),
{
    if b == 110u8 {
        10u8
    } else if b == 114u8 {
        13u8
    } else if b == 116u8 {
        9u8
    } else if b == 98u8 {
        8u8
    } else if b == 97u8 {
        7u8
    } else {
        b
    }
}

/// Reads one argument starting at `start`: the argument and the position
/// past it, or `None` when its quoting is unbalanced.
fn read_inline_arg(line: &[u8], start: usize) -> (r: Option<(Vec<u8>, usize)>)
    requires
        start < line@.len(),
    ensures
        match wire::arg_from(line@, start as int, Quote::Plain, Seq::empty()) {
            Some((a, k)) => r matches Some((v, k2)) && v@ == a && k2 == k && k <= line@.len(),
            None => r is None,
        },
{
    let mut q = Quote::Plain;
    let mut acc: Vec<u8> = Vec::new();
    let mut i: usize = start;
    loop
        invariant
            start <= i <= line@.len(),
            wire::arg_from(line@, start as int, Quote::Plain, Seq::empty()) == wire::arg_from(
                line@,
                i as int,
                q,
                acc@,
            ),
        decreases line@.len() - i,
    {
        if i >= line.len() {
            match q {
                Quote::Plain => {
                    return Some((acc, i));
                },
                _ => {
                    return None;
                },
            }
        }
        let c = line[i];
        match q {
            Quote::Plain => {
                if c == 32u8 {
                    return Some((acc, i + 1));
                } else if c == 34u8 {
                    q = Quote::Double;
                    i = i + 1;
                } else if c == 39u8 {
                    q = Quote::Single;
                    i = i + 1;
                } else {
                    acc.push(c);
                    i = i + 1;
                }
            },
            Quote::Double => {
                if c == 92u8 && line.len() - i > 3 && line[i + 1] == 120u8 && is_hex_byte(
                    line[i + 2],
                ) && is_hex_byte(line[i + 3]) {
                    let h = hex_digit_value(line[i + 2]);
                    let l = hex_digit_value(line[i + 3]);
                    acc.push(h * 16 + l);
                    i = i + 4;
                } else if c == 92u8 && line.len() - i > 1 {
                    acc.push(unescape_byte(line[i + 1]));
                    i = i + 2;
                } else if c == 34u8 {
                    if line.len() - i > 1 && !is_space_byte(line[i + 1]) {
                        return None;
                    } else {
                        return Some((acc, i + 1));
                    }
                } else {
                    acc.push(c);
                    i = i + 1;
                }
            },
            Quote::Single => {
                if c == 92u8 && line.len() - i > 1 && line[i + 1] == 39u8 {
                    acc.push(39u8);
                    i = i + 2;
                } else if c == 39u8 {
                    if line.len() - i > 1 && !is_space_byte(line[i + 1]) {
                        return None;
                    } else {
                        return Some((acc, i + 1));
                    }
                } else {
                    acc.push(c);
                    i = i + 1;
                }
            },
        }
    }
}

/// Splits an inline line into its arguments: spaces separate them,
/// double and single quotes group them and escape bytes inside. `None` when
/// a quote is left open, or a closing quote runs into the next argument.
pub fn split_inline(line: &[u8]) -> (r: Option<Vec<Vec<u8>>>)
    ensures
        match wire::split_args(line@) {
            Some(ws) => r matches Some(v) && byte_strings(v@) == ws,
            None => r is None,
        },
        r matches Some(v) ==> v@.len() <= line@.len(),
{
    let mut out: Vec<Vec<u8>> = Vec::new();
    let mut i: usize = 0;
    assert(byte_strings(out@) + Seq::<Seq<u8>>::empty() =~= Seq::<Seq<u8>>::empty());
    loop
        invariant
            i <= line@.len(),
            out@.len() <= i,
            wire::split_args(line@) == with_front(byte_strings(out@), wire::args_from(line@, i as int)),
        decreases line@.len() - i,
    {
        let mut j: usize = i;
        while j < line.len() && is_space_byte(line[j])
            invariant
                i <= j <= line@.len(),
                wire::skip_spaces(line@, i as int) == wire::skip_spaces(line@, j as int),
            decreases line@.len() - j,
        {
            j = j + 1;
        }
        if j >= line.len() {
            assert(byte_strings(out@) + Seq::<Seq<u8>>::empty() =~= byte_strings(out@));
            return Some(out);
        }
        match read_inline_arg(line, j) {
            None => {
                return None;
            },
            Some((a, k)) => {
                if k <= j {
                    return None;
                }
                proof {
                    let rest = wire::args_from(line@, k as int);
                    assert(byte_strings(out@.push(a)) =~= byte_strings(out@).push(a@));
                    if let Some(r) = rest {
                        assert(byte_strings(out@) + (seq![a@] + r) =~= byte_strings(out@).push(a@)
                            + r);
                    }
                }
                out.push(a);
                i = k;
            },
        }
    }
}

} // verus!
