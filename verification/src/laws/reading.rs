//! Reading what was written: the steps that the laws of decoding share.

use vstd::prelude::*;
use crate::bytes::{be_bytes, be_value, lemma_be_bytes_len, lemma_be_value_of_bytes, lemma_spans};
use crate::cursor::CursorView;
use crate::error::Error;
use crate::framing::{head, info, initial, length, uint, width};

verus! {

/// A cursor that has passed the bytes `done` and stands before the bytes
/// `rest`.
pub open spec fn at(done: Seq<u8>, rest: Seq<u8>) -> CursorView {
    CursorView { bytes: done + rest, pos: done.len() }
}

/// The bytes at the cursor are read as they stand.
pub proof fn lemma_take(done: Seq<u8>, x: Seq<u8>, rest: Seq<u8>)
    ensures
        at(done, x + rest).take(x.len()) == Ok::<(Seq<u8>, CursorView), Error>(
            (x, at(done + x, rest)),
        ),
        at(done, x + rest).remaining() == x.len() + rest.len(),
        at(done + x, rest).remaining() == rest.len(),
{
    let c = at(done, x + rest);
    assert(c.peek(x.len()) =~= x);
    assert(done + (x + rest) =~= (done + x) + rest);
}

/// A number written in big-endian order is read as it was written.
pub proof fn lemma_uint_read(done: Seq<u8>, value: nat, n: nat, rest: Seq<u8>)
    requires
        n == 1 || n == 2 || n == 4 || n == 8,
        n == 1 ==> value <= 0xff,
        n == 2 ==> value <= 0xffff,
        n == 4 ==> value <= 0xffff_ffff,
        n == 8 ==> value <= 0xffff_ffff_ffff_ffff,
    ensures
        uint(at(done, be_bytes(value, n) + rest), n) == Ok::<(nat, CursorView), Error>(
            (value, at(done + be_bytes(value, n), rest)),
        ),
{
    lemma_spans();
    lemma_be_bytes_len(value, n);
    lemma_be_value_of_bytes(value, n);
    lemma_take(done, be_bytes(value, n), rest);
}

/// The initial byte, as a number: the major type in the top three bits, the
/// additional information in the low five.
pub proof fn lemma_initial(major: u8, low: u8)
    requires
        major <= 7,
        low <= 31,
    ensures
        initial(major, low) == major * 32 + low,
{
    assert(major <= 7 && low <= 31 ==> (major << 5 | low) == major * 32 + low) by (bit_vector);
}

/// The length of a head: the initial byte and the width of the magnitude.
pub proof fn lemma_head_len(major: u8, value: nat)
    ensures
        head(major, value).len() == 1 + width(value),
        1 <= head(major, value).len() <= 9,
{
    lemma_be_bytes_len(value, width(value));
}

/// The initial byte of a head is read as the major type and the additional
/// information of the magnitude.
pub proof fn lemma_head_initial(done: Seq<u8>, major: u8, value: nat, rest: Seq<u8>)
    requires
        major <= 7,
    ensures
        uint(at(done, head(major, value) + rest), 1) == Ok::<(nat, CursorView), Error>(
            (
                (major * 32 + info(value)) as nat,
                at(done + seq![initial(major, info(value))], be_bytes(value, width(value)) + rest),
            ),
        ),
{
    let first = seq![initial(major, info(value))];
    let tail = be_bytes(value, width(value));
    lemma_initial(major, info(value));
    assert(head(major, value) + rest =~= first + (tail + rest));
    lemma_take(done, first, tail + rest);
    reveal_with_fuel(be_value, 2);
    assert(first.drop_last() =~= Seq::<u8>::empty());
}

/// Behind the initial byte of a head, the magnitude is read as a length,
/// where it is one that the host can address.
pub proof fn lemma_head_length(done: Seq<u8>, major: u8, value: nat, rest: Seq<u8>)
    requires
        major <= 7,
        value <= usize::MAX,
    ensures
        length(
            at(done + seq![initial(major, info(value))], be_bytes(value, width(value)) + rest),
            info(value),
        ) == Ok::<(nat, CursorView), Error>((value, at(done + head(major, value), rest))),
{
    let first = seq![initial(major, info(value))];
    let tail = be_bytes(value, width(value));
    assert((done + first) + tail =~= done + head(major, value));
    if value <= 0x17 {
        assert(tail =~= Seq::<u8>::empty());
        assert(tail + rest =~= rest);
    } else {
        lemma_uint_read(done + first, value, width(value), rest);
    }
}

/// Behind the initial byte of a head of more than one byte, the magnitude is
/// read as a number.
pub proof fn lemma_head_number(done: Seq<u8>, major: u8, value: nat, rest: Seq<u8>)
    requires
        major <= 7,
        0x17 < value <= u64::MAX,
    ensures
        uint(
            at(done + seq![initial(major, info(value))], be_bytes(value, width(value)) + rest),
            width(value),
        ) == Ok::<(nat, CursorView), Error>((value, at(done + head(major, value), rest))),
{
    let first = seq![initial(major, info(value))];
    let tail = be_bytes(value, width(value));
    assert((done + first) + tail =~= done + head(major, value));
    lemma_uint_read(done + first, value, width(value), rest);
}

/// Moving past the bytes at the cursor leaves the cursor behind them.
pub proof fn lemma_advance(done: Seq<u8>, x: Seq<u8>, rest: Seq<u8>)
    ensures
        at(done, x + rest).advance(x.len()) == at(done + x, rest),
{
    assert(done + (x + rest) =~= (done + x) + rest);
}

/// The longest collection of a host is one that it can address, and a seek
/// can pass it.
pub proof fn lemma_host_limits()
    ensures
        isize::MAX <= usize::MAX,
        isize::MAX <= i64::MAX,
        usize::MAX <= u64::MAX,
{
}

} // verus!
