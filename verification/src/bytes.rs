//! Big-endian integers and the order of byte strings.

use vstd::prelude::*;
use byteorder::{BigEndian, ByteOrder};

verus! {

/// The number that `bytes` hold in big-endian order.
pub open spec fn be_value(bytes: Seq<u8>) -> nat
    decreases bytes.len(),
{
    if bytes.len() == 0 {
        0
    } else {
        be_value(bytes.drop_last()) * 256 + bytes.last() as nat
    }
}

/// The `width` low bytes of `value` in big-endian order.
pub open spec fn be_bytes(value: nat, width: nat) -> Seq<u8>
    decreases width,
{
    if width == 0 {
        Seq::<u8>::empty()
    } else {
        be_bytes(value / 256, (width - 1) as nat).push((value % 256) as u8)
    }
}

/// 256 to the power of `width`: the number of values that `width` bytes hold.
pub open spec fn span(width: nat) -> nat
    decreases width,
{
    if width == 0 {
        1
    } else {
        256 * span((width - 1) as nat)
    }
}

/// `be_bytes` has the width asked for.
pub proof fn lemma_be_bytes_len(value: nat, width: nat)
    ensures
        be_bytes(value, width).len() == width,
    decreases width,
{
    if width > 0 {
        lemma_be_bytes_len(value / 256, (width - 1) as nat);
    }
}

/// The bytes of a value that fits the width hold that value.
pub proof fn lemma_be_value_of_bytes(value: nat, width: nat)
    requires
        value < span(width),
    ensures
        be_value(be_bytes(value, width)) == value,
    decreases width,
{
    if width > 0 {
        let rest = be_bytes(value / 256, (width - 1) as nat);
        lemma_be_value_of_bytes(value / 256, (width - 1) as nat);
        assert(be_bytes(value, width).drop_last() =~= rest);
    }
}

/// What bytes hold is below the span of their number.
pub proof fn lemma_be_value_bound(bytes: Seq<u8>)
    ensures
        be_value(bytes) < span(bytes.len()),
    decreases bytes.len(),
{
    if bytes.len() > 0 {
        lemma_be_value_bound(bytes.drop_last());
    }
}

/// The spans of one, two, four and eight bytes.
pub proof fn lemma_spans()
    ensures
        span(1) == 0x100,
        span(2) == 0x1_0000,
        span(4) == 0x1_0000_0000,
        span(8) == 0x1_0000_0000_0000_0000,
{
    reveal_with_fuel(span, 9);
}

/// Calls `byteorder::BigEndian::read_u16`, which panics on fewer than two
/// bytes and otherwise returns the number that the first two bytes hold in
/// big-endian order.
#[verifier::external_body]
pub(crate) fn be_read_u16(buf: &[u8]) -> (value: u16)
    requires
        buf@.len() >= 2,
    ensures
        value == be_value(buf@.subrange(0, 2)),
{
    BigEndian::read_u16(buf)
}

/// Calls `byteorder::BigEndian::read_u32`, which panics on fewer than four
/// bytes and otherwise returns the number that the first four bytes hold in
/// big-endian order.
#[verifier::external_body]
pub(crate) fn be_read_u32(buf: &[u8]) -> (value: u32)
    requires
        buf@.len() >= 4,
    ensures
        value == be_value(buf@.subrange(0, 4)),
{
    BigEndian::read_u32(buf)
}

/// Calls `byteorder::BigEndian::read_u64`, which panics on fewer than eight
/// bytes and otherwise returns the number that the first eight bytes hold in
/// big-endian order.
#[verifier::external_body]
pub(crate) fn be_read_u64(buf: &[u8]) -> (value: u64)
    requires
        buf@.len() >= 8,
    ensures
        value == be_value(buf@.subrange(0, 8)),
{
    BigEndian::read_u64(buf)
}

/// Calls `byteorder::BigEndian::write_u16`, which panics on fewer than two
/// bytes and otherwise puts the two bytes of `value` in big-endian order at
/// the start of `buf` and leaves the rest of `buf` as it was.
#[verifier::external_body]
pub(crate) fn be_write_u16(buf: &mut [u8], value: u16)
    requires
        old(buf)@.len() >= 2,
    ensures
        final(buf)@ == be_bytes(value as nat, 2) + old(buf)@.subrange(2, old(buf)@.len() as int),
{
    BigEndian::write_u16(buf, value)
}

/// Calls `byteorder::BigEndian::write_u32`, which panics on fewer than four
/// bytes and otherwise puts the four bytes of `value` in big-endian order at
/// the start of `buf` and leaves the rest of `buf` as it was.
#[verifier::external_body]
pub(crate) fn be_write_u32(buf: &mut [u8], value: u32)
    requires
        old(buf)@.len() >= 4,
    ensures
        final(buf)@ == be_bytes(value as nat, 4) + old(buf)@.subrange(4, old(buf)@.len() as int),
{
    BigEndian::write_u32(buf, value)
}

/// Calls `byteorder::BigEndian::write_u64`, which panics on fewer than eight
/// bytes and otherwise puts the eight bytes of `value` in big-endian order at
/// the start of `buf` and leaves the rest of `buf` as it was.
#[verifier::external_body]
pub(crate) fn be_write_u64(buf: &mut [u8], value: u64)
    requires
        old(buf)@.len() >= 8,
    ensures
        final(buf)@ == be_bytes(value as nat, 8) + old(buf)@.subrange(8, old(buf)@.len() as int),
{
    BigEndian::write_u64(buf, value)
}

/// Whether `a` comes before `b`, or equals it, in lexicographic order.
pub open spec fn lex_le(a: Seq<u8>, b: Seq<u8>) -> bool
    decreases a.len(),
{
    if a.len() == 0 {
        true
    } else if b.len() == 0 {
        false
    } else if a[0] != b[0] {
        a[0] < b[0]
    } else {
        lex_le(a.drop_first(), b.drop_first())
    }
}

/// Whether `a` comes before `b`, or equals it, in lexicographic order.
pub fn lex_before_or_equal(a: &[u8], b: &[u8]) -> (r: bool)
    ensures
        r == lex_le(a@, b@),
{
    let mut i: usize = 0;
    assert(a@.skip(0) =~= a@ && b@.skip(0) =~= b@);
    while i < a.len() && i < b.len()
        invariant
            i <= a@.len(),
            i <= b@.len(),
            lex_le(a@, b@) == lex_le(a@.skip(i as int), b@.skip(i as int)),
        decreases a@.len() - i,
    {
        if a[i] != b[i] {
            return a[i] < b[i];
        }
        assert(a@.skip(i as int).drop_first() =~= a@.skip(i + 1));
        assert(b@.skip(i as int).drop_first() =~= b@.skip(i + 1));
        i += 1;
    }
    i == a.len()
}

/// Whether `a` and `b` hold the same bytes.
pub fn same_bytes(a: &[u8], b: &[u8]) -> (r: bool)
    ensures
        r == (a@ == b@),
{
    if a.len() != b.len() {
        return false;
    }
    let mut i: usize = 0;
    while i < a.len()
        invariant
            i <= a@.len(),
            a@.len() == b@.len(),
            forall|j: int| 0 <= j < i ==> a@[j] == b@[j],
        decreases a@.len() - i,
    {
        if a[i] != b[i] {
            return false;
        }
        i += 1;
    }
    assert(a@ =~= b@);
    true
}

} // verus!
