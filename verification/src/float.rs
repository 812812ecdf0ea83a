//! Floating-point numbers by their bits: IEEE 754 single and double
//! precision as `u32` and `u64`.

use vstd::prelude::*;

verus! {

/// The position of the highest bit that is set in `x`; 0 for 0.
pub open spec fn top_bit(x: u32) -> nat
    decreases x,
{
    if x <= 1 {
        0
    } else {
        proof {
            assert(x > 1 ==> (x >> 1) < x) by (bit_vector);
        }
        1 + top_bit(x >> 1)
    }
}

/// The bits of the double that has the value of the single with bits `b`.
/// Every single has one. A NaN becomes the quiet NaN with no payload.
pub open spec fn widen(b: u32) -> u64 {
    let s: u64 = (b >> 31) as u64;
    let e: u32 = (b >> 23) & 0xff;
    let f: u32 = b & 0x7f_ffff;
    if e == 0xff {
        if f == 0 {
            (s << 63) | 0x7ff0_0000_0000_0000
        } else {
            0x7ff8_0000_0000_0000
        }
    } else if e == 0 {
        if f == 0 {
            s << 63
        } else {
            let p: nat = top_bit(f);
            (s << 63) | (((p + 874) as u64) << 52) | (((f as u64) << ((52 - p) as u64))
                & 0x000f_ffff_ffff_ffff)
        }
    } else {
        (s << 63) | (((e + 896) as u64) << 52) | ((f as u64) << 29)
    }
}

/// The bits of the only single that can have the value of the double with
/// bits `bits`, where `bits` is finite.
pub open spec fn nearest(bits: u64) -> u32 {
    let s: u32 = (bits >> 63) as u32;
    let e: u64 = (bits >> 52) & 0x7ff;
    let m: u64 = bits & 0x000f_ffff_ffff_ffff;
    if 897 <= e <= 1150 {
        (s << 31) | (((e - 896) as u32) << 23) | ((m >> 29) as u32)
    } else if 874 <= e <= 896 {
        (s << 31) | (1u32 << ((e - 874) as u32)) | ((m >> ((926 - e) as u64)) as u32)
    } else {
        s << 31
    }
}

/// The bits of the single that has the value of the double with bits `bits`,
/// where there is one.
pub open spec fn narrow(bits: u64) -> Option<u32> {
    if widen(nearest(bits)) == bits {
        Some(nearest(bits))
    } else {
        None
    }
}

/// Whether the double with bits `bits` is an infinity or a NaN.
pub open spec fn is_special(bits: u64) -> bool {
    (bits >> 52) & 0x7ff == 0x7ff
}

/// Whether the double with bits `bits` is a NaN.
pub open spec fn is_nan(bits: u64) -> bool {
    is_special(bits) && bits & 0x000f_ffff_ffff_ffff != 0
}

/// Whether the single with bits `b` is an infinity or a NaN.
pub open spec fn is_special_single(b: u32) -> bool {
    (b >> 23) & 0xff == 0xff
}

/// Whether the single with bits `b` is a NaN.
pub open spec fn is_nan_single(b: u32) -> bool {
    is_special_single(b) && b & 0x7f_ffff != 0
}

/// The position of the highest bit that is set in `x`.
pub fn top_bit_of(x: u32) -> (p: u32)
    ensures
        p == top_bit(x),
        p < 32,
{
    let mut rest: u32 = x;
    let mut p: u32 = 0;
    assert(x <= (u32::MAX >> 0u32)) by (bit_vector);
    while rest > 1
        invariant
            p < 32,
            rest <= (u32::MAX >> p),
            top_bit(x) == p + top_bit(rest),
        decreases rest,
    {
        proof {
            let q = p;
            let r = rest;
            assert(r > 1 && r <= (u32::MAX >> q) && q < 32 ==> q < 31 && (r >> 1) <= (u32::MAX >> (
            q + 1) as u32) && (r >> 1) < r) by (bit_vector);
        }
        rest = rest >> 1;
        p = p + 1;
    }
    p
}

/// The bits of the double that has the value of the single with bits `b`.
pub fn widen_bits(b: u32) -> (bits: u64)
    ensures
        bits == widen(b),
{
    let s: u64 = (b >> 31) as u64;
    let e: u32 = (b >> 23) & 0xff;
    let f: u32 = b & 0x7f_ffff;
    if e == 0xff {
        if f == 0 {
            (s << 63) | 0x7ff0_0000_0000_0000
        } else {
            0x7ff8_0000_0000_0000
        }
    } else if e == 0 {
        if f == 0 {
            s << 63
        } else {
            let p: u32 = top_bit_of(f);
            proof {
                assert(f <= 0x7f_ffff) by (bit_vector)
                    requires
                        f == b & 0x7f_ffff,
                ;
                lemma_top_bit_bound(f);
            }
            (s << 63) | (((p + 874) as u64) << 52) | (((f as u64) << ((52 - p) as u64))
                & 0x000f_ffff_ffff_ffff)
        }
    } else {
        assert(e <= 0xff) by (bit_vector)
            requires
                e == (b >> 23) & 0xff,
        ;
        (s << 63) | (((e + 896) as u64) << 52) | ((f as u64) << 29)
    }
}

/// The highest bit of a fraction of 23 bits is below 23.
pub proof fn lemma_top_bit_bound(f: u32)
    requires
        f <= 0x7f_ffff,
    ensures
        top_bit(f) <= 22,
        f > 0 ==> (f >> (top_bit(f) as u32)) == 1,
{
    assert(f <= 0x7f_ffff ==> f <= (u32::MAX >> 9u32)) by (bit_vector);
    lemma_top_bit(f, 23);
}

/// The highest bit of a number below `2^n` is below `n`, and the number
/// shifted down to it is 1.
proof fn lemma_top_bit(x: u32, n: u32)
    requires
        1 <= n <= 32,
        x <= (u32::MAX >> ((32 - n) as u32)),
    ensures
        top_bit(x) <= n - 1,
        x > 0 ==> (x >> (top_bit(x) as u32)) == 1,
    decreases x,
{
    if x <= 1 {
        assert(1u32 >> 0u32 == 1) by (bit_vector);
    } else {
        assert(x > 1 && 1 <= n <= 32 && x <= (u32::MAX >> ((32 - n) as u32)) ==> n >= 2 && (x >> 1)
            < x && (x >> 1) >= 1 && (x >> 1) <= (u32::MAX >> ((32 - (n - 1) as u32) as u32)))
            by (bit_vector);
        lemma_top_bit(x >> 1, (n - 1) as u32);
        let p: u32 = top_bit(x >> 1) as u32;
        assert(p <= 30 && ((x >> 1) >> p) == 1 ==> (x >> ((1 + p) as u32)) == 1) by (bit_vector);
    }
}

/// The bits of the single that has the value of the double with bits `bits`,
/// where there is one.
pub fn narrow_bits(bits: u64) -> (b: Option<u32>)
    ensures
        b == narrow(bits),
{
    let s: u32 = (bits >> 63) as u32;
    let e: u64 = (bits >> 52) & 0x7ff;
    let m: u64 = bits & 0x000f_ffff_ffff_ffff;
    assert(s <= 1 && e <= 0x7ff && (m >> 29) <= 0x7f_ffff) by (bit_vector)
        requires
            s == (bits >> 63) as u32,
            e == (bits >> 52) & 0x7ff,
            m == bits & 0x000f_ffff_ffff_ffff,
    ;
    let single: u32 = if 897 <= e && e <= 1150 {
        (s << 31) | (((e - 896) as u32) << 23) | ((m >> 29) as u32)
    } else if 874 <= e && e <= 896 {
        assert(874 <= e <= 896 && m <= 0x000f_ffff_ffff_ffff ==> (m >> ((926 - e) as u64))
            <= 0x7f_ffff) by (bit_vector);
        (s << 31) | (1u32 << ((e - 874) as u32)) | ((m >> ((926 - e) as u64)) as u32)
    } else {
        s << 31
    };
    if widen_bits(single) == bits {
        Some(single)
    } else {
        None
    }
}

} // verus!
