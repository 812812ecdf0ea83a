//! Floats: five bytes where a single has the value, nine where none has.

use vstd::prelude::*;
use crate::bytes::{be_bytes, lemma_be_bytes_len};
use crate::float::{
    is_special, is_special_single, lemma_top_bit_bound, narrow, nearest, top_bit, widen,
};
use crate::wire::float_encoding;

verus! {

/// The double of a single that is zero gives the single back.
proof fn lemma_nearest_of_zero(s: u32)
    requires
        (s >> 23) & 0xff == 0,
        s & 0x7f_ffff == 0,
    ensures
        nearest(widen(s)) == s,
        !is_special(widen(s)),
{
    let sg: u64 = (s >> 31) as u64;
    let w: u64 = sg << 63;
    assert(w == widen(s));
    assert((w >> 52) & 0x7ff == 0 && ((w >> 63) as u32) << 31 == s) by (bit_vector)
        requires
            sg == (s >> 31) as u64,
            (s >> 23) & 0xff == 0,
            s & 0x7f_ffff == 0,
            w == sg << 63,
    ;
}

/// The double of a single in the normal range gives the single back.
proof fn lemma_nearest_of_normal(s: u32)
    requires
        (s >> 23) & 0xff != 0,
        (s >> 23) & 0xff != 0xff,
    ensures
        nearest(widen(s)) == s,
        !is_special(widen(s)),
{
    let sg: u64 = (s >> 31) as u64;
    let e: u32 = (s >> 23) & 0xff;
    let f: u32 = s & 0x7f_ffff;
    assert(1 <= e <= 254) by (bit_vector)
        requires
            e == (s >> 23) & 0xff,
            e != 0,
            e != 0xff,
    ;
    let ex: u64 = (e + 896) as u64;
    let w: u64 = (sg << 63) | (ex << 52) | ((f as u64) << 29);
    assert(w == widen(s));
    let back: u32 = (e + 896 - 896) as u32;
    assert(back == e);
    assert((w >> 52) & 0x7ff == ex && (((w >> 63) as u32) << 31) | (back << 23) | (((w
        & 0x000f_ffff_ffff_ffff) >> 29) as u32) == s) by (bit_vector)
        requires
            sg == (s >> 31) as u64,
            back == (s >> 23) & 0xff,
            f == s & 0x7f_ffff,
            1 <= back <= 254,
            ex == (back as u64) + 896,
            w == (sg << 63) | (ex << 52) | ((f as u64) << 29),
    ;
    assert(((w >> 52) & 0x7ff) - 896 == back);
}

/// The double of a single below the normal range gives the single back.
proof fn lemma_nearest_of_subnormal(s: u32)
    requires
        (s >> 23) & 0xff == 0,
        s & 0x7f_ffff != 0,
    ensures
        nearest(widen(s)) == s,
        !is_special(widen(s)),
{
    let sg: u64 = (s >> 31) as u64;
    let f: u32 = s & 0x7f_ffff;
    assert(f <= 0x7f_ffff) by (bit_vector)
        requires
            f == s & 0x7f_ffff,
    ;
    lemma_top_bit_bound(f);
    let p: nat = top_bit(f);
    let pp: u32 = p as u32;
    let ex: u64 = (p + 874) as u64;
    let sh: u64 = (52 - p) as u64;
    let w: u64 = (sg << 63) | (ex << 52) | (((f as u64) << sh) & 0x000f_ffff_ffff_ffff);
    assert(w == widen(s));
    assert((w >> 52) & 0x7ff == ex && (((w >> 63) as u32) << 31) | (1u32 << pp) | (((w
        & 0x000f_ffff_ffff_ffff) >> sh) as u32) == s) by (bit_vector)
        requires
            sg == (s >> 31) as u64,
            (s >> 23) & 0xff == 0,
            f == s & 0x7f_ffff,
            pp <= 22,
            f >> pp == 1,
            ex == (pp as u64) + 874,
            sh == 52 - (pp as u64),
            w == (sg << 63) | (ex << 52) | (((f as u64) << sh) & 0x000f_ffff_ffff_ffff),
    ;
    let e2: u64 = (w >> 52) & 0x7ff;
    assert((e2 - 874) as u32 == pp);
    assert((926 - e2) as u64 == sh);
}

/// The double of a single that is neither an infinity nor a NaN gives the
/// single back, and is neither an infinity nor a NaN.
pub proof fn lemma_nearest_of_widen(s: u32)
    requires
        !is_special_single(s),
    ensures
        nearest(widen(s)) == s,
        !is_special(widen(s)),
{
    if (s >> 23) & 0xff == 0 {
        if s & 0x7f_ffff == 0 {
            lemma_nearest_of_zero(s);
        } else {
            lemma_nearest_of_subnormal(s);
        }
    } else {
        lemma_nearest_of_normal(s);
    }
}

/// The double of an infinity or a NaN is an infinity or a NaN.
pub proof fn lemma_widen_special(s: u32)
    requires
        is_special_single(s),
    ensures
        is_special(widen(s)),
{
    let sg: u64 = (s >> 31) as u64;
    assert(((sg << 63) | 0x7ff0_0000_0000_0000u64) >> 52 & 0x7ff == 0x7ff) by (bit_vector);
    assert((0x7ff8_0000_0000_0000u64 >> 52) & 0x7ff == 0x7ff) by (bit_vector);
}

/// Whether a single has the value of the double with bits `bits`.
pub open spec fn has_single(bits: u64) -> bool {
    exists|s: u32| widen(s) == bits
}

/// A double that is neither an infinity nor a NaN is written in five bytes
/// where a single has its value, as `fa` and the bits of that single, and
/// else in nine bytes, as `fb` and its own bits.
pub proof fn lemma_float_canonical(bits: u64)
    requires
        !is_special(bits),
    ensures
        has_single(bits) ==> float_encoding(bits).len() == 5 && narrow(bits) is Some && widen(
            narrow(bits).unwrap(),
        ) == bits && float_encoding(bits) == seq![0xfau8] + be_bytes(
            narrow(bits).unwrap() as nat,
            4,
        ),
        !has_single(bits) ==> float_encoding(bits).len() == 9 && float_encoding(bits) == seq![
            0xfbu8,
        ] + be_bytes(bits as nat, 8),
{
    lemma_be_bytes_len(bits as nat, 8);
    lemma_be_bytes_len(nearest(bits) as nat, 4);
    if has_single(bits) {
        let s = choose|s: u32| widen(s) == bits;
        if is_special_single(s) {
            lemma_widen_special(s);
        }
        lemma_nearest_of_widen(s);
    } else {
        if widen(nearest(bits)) == bits {
            assert(has_single(bits));
        }
    }
}

/// Two doubles, neither an infinity nor a NaN, that are written as the same
/// bytes are the same double: the encoding tells the doubles apart.
pub proof fn lemma_float_injective(a: u64, b: u64)
    requires
        !is_special(a),
        !is_special(b),
        float_encoding(a) == float_encoding(b),
    ensures
        a == b,
{
    lemma_be_bytes_len(a as nat, 8);
    lemma_be_bytes_len(b as nat, 8);
    lemma_be_bytes_len(nearest(a) as nat, 4);
    lemma_be_bytes_len(nearest(b) as nat, 4);
    let ea = float_encoding(a);
    let eb = float_encoding(b);
    crate::bytes::lemma_spans();
    if narrow(a) is Some {
        assert(ea[0] == 0xfa);
        assert(narrow(b) is Some);
        let x = narrow(a).unwrap() as nat;
        let y = narrow(b).unwrap() as nat;
        assert(ea.skip(1) =~= be_bytes(x, 4));
        assert(eb.skip(1) =~= be_bytes(y, 4));
        crate::bytes::lemma_be_value_of_bytes(x, 4);
        crate::bytes::lemma_be_value_of_bytes(y, 4);
    } else {
        assert(ea[0] == 0xfb);
        assert(narrow(b) is None);
        assert(ea.skip(1) =~= be_bytes(a as nat, 8));
        assert(eb.skip(1) =~= be_bytes(b as nat, 8));
        crate::bytes::lemma_be_value_of_bytes(a as nat, 8);
        crate::bytes::lemma_be_value_of_bytes(b as nat, 8);
    }
}

} // verus!
