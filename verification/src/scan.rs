//! Passing over an encoded value, and listing the links in it, without
//! building the value.

use vstd::prelude::*;
use crate::codec::{DagCborCodec, References, SkipOne};
use crate::cursor::{ByteCursor, CursorView, SeekFrom};
use crate::decode::read_link;
use crate::error::Error;
use crate::framing::{lemma_length, lemma_uint, length, read_len, read_u8, uint};
use crate::ipld::Ipld;
use crate::link::Cid;
use crate::wire::link;

verus! {

/// The cursor moved forward by `n` without a look at the bytes: even beyond
/// the end of the buffer, but not beyond what a seek can do.
pub open spec fn jump(c: CursorView, n: nat) -> Result<CursorView, Error> {
    if n <= i64::MAX && c.pos + n <= u64::MAX {
        Ok(c.advance(n))
    } else {
        Err(Error::InvalidSeek)
    }
}

/// How far the initial byte `b` of a number, a simple value or a float says
/// to move: by nothing where the byte holds it all, else by the 1, 2, 4 or 8
/// bytes that follow. Nothing for every other initial byte.
pub open spec fn fixed_size(b: nat) -> Option<nat> {
    if b <= 0x17 || 0x20 <= b <= 0x37 || 0xf4 <= b <= 0xf7 {
        Some(0)
    } else if b == 0x18 || b == 0x38 || b == 0xf8 {
        Some(1)
    } else if b == 0x19 || b == 0x39 || b == 0xf9 {
        Some(2)
    } else if b == 0x1a || b == 0x3a || b == 0xfa {
        Some(4)
    } else if b == 0x1b || b == 0x3b || b == 0xfb {
        Some(8)
    } else {
        None
    }
}

/// What passing over a value gives: the cursor behind it, or an error.
pub open spec fn moved(expected: Result<CursorView, Error>, res: Result<(), Error>, after: CursorView) -> bool {
    match expected {
        Ok(c) => res is Ok && after == c,
        Err(e) => res == Err::<(), Error>(e),
    }
}

/// What listing links gives: the links and the cursor behind the value, or
/// an error.
pub open spec fn listed(
    expected: Result<(Seq<Seq<u8>>, CursorView), Error>,
    res: Result<(), Error>,
    set: Seq<Seq<u8>>,
    after: CursorView,
) -> bool {
    match expected {
        Ok((all, c)) => res is Ok && set == all && after == c,
        Err(e) => res == Err::<(), Error>(e),
    }
}

/// The cursor behind the value at the cursor.
#[verifier::opaque]
pub open spec fn skip(c: CursorView) -> Result<CursorView, Error>
    decreases c.remaining(), 0nat, 0nat,
{
    match uint(c, 1) {
        Err(e) => Err(e),
        Ok((b, c1)) => {
            if fixed_size(b) is Some {
                jump(c1, fixed_size(b).unwrap())
            } else if 0x40 <= b <= 0x5b || 0x60 <= b <= 0x7b {
                skip_string(c1, (b % 32) as u8)
            } else if 0x80 <= b <= 0x9b {
                skip_counted(c1, (b - 0x80) as u8, 1)
            } else if b == 0x9f {
                skip_to_break(c1, 1)
            } else if 0xa0 <= b <= 0xbb {
                skip_counted(c1, (b - 0xa0) as u8, 2)
            } else if b == 0xbf {
                skip_to_break(c1, 2)
            } else if b == 0xd8 {
                skip_tagged(c1)
            } else {
                Err(Error::UnexpectedCode(b as u8))
            }
        },
    }
}

/// The cursor behind a byte or text string whose length goes with the
/// additional information `info`.
pub open spec fn skip_string(c: CursorView, info: u8) -> Result<CursorView, Error> {
    match length(c, info) {
        Err(e) => Err(e),
        Ok((n, c1)) => jump(c1, n),
    }
}

/// The cursor behind the values of a list (`per` is 1) or a map (`per` is 2)
/// whose length goes with the additional information `info`.
#[verifier::opaque]
pub open spec fn skip_counted(c: CursorView, info: u8, per: nat) -> Result<CursorView, Error>
    decreases c.remaining(), 2nat, 0nat,
{
    match length(c, info) {
        Err(e) => Err(e),
        Ok((n, c1)) => {
            proof {
                lemma_length(c, info);
            }
            skip_items(c1, per * n)
        },
    }
}

/// The cursor behind the number of a tag and the value that it tags.
#[verifier::opaque]
pub open spec fn skip_tagged(c: CursorView) -> Result<CursorView, Error>
    decreases c.remaining(), 2nat, 0nat,
{
    match uint(c, 1) {
        Err(e) => Err(e),
        Ok((_, c1)) => skip(c1),
    }
}

/// The cursor behind the `n` values at the cursor.
#[verifier::opaque]
pub open spec fn skip_items(c: CursorView, n: nat) -> Result<CursorView, Error>
    decreases c.remaining(), 1nat, n,
{
    if n == 0 {
        Ok(c)
    } else {
        match skip(c) {
            Err(e) => Err(e),
            Ok(c1) => if c1.remaining() < c.remaining() {
                skip_items(c1, (n - 1) as nat)
            } else {
                Err(Error::ShortRead)
            },
        }
    }
}

/// The cursor behind the byte `ff` that ends the values at the cursor, which
/// come in groups of `per`.
#[verifier::opaque]
pub open spec fn skip_to_break(c: CursorView, per: nat) -> Result<CursorView, Error>
    decreases c.remaining(), 2nat, 0nat,
{
    match uint(c, 1) {
        Err(e) => Err(e),
        Ok((b, c1)) => if b == 0xff {
            Ok(c1)
        } else {
            match skip_items(c, per) {
                Err(e) => Err(e),
                Ok(c2) => if c2.remaining() < c.remaining() {
                    skip_to_break(c2, per)
                } else {
                    Err(Error::ShortRead)
                },
            }
        },
    }
}

/// The links `found` and, behind them, the links of the value at the cursor
/// in the order in which they are met; and the cursor behind the value.
#[verifier::opaque]
pub open spec fn scan(c: CursorView, found: Seq<Seq<u8>>) -> Result<(Seq<Seq<u8>>, CursorView), Error>
    decreases c.remaining(), 0nat, 0nat,
{
    match uint(c, 1) {
        Err(e) => Err(e),
        Ok((b, c1)) => {
            if fixed_size(b) is Some {
                unchanged(jump(c1, fixed_size(b).unwrap()), found)
            } else if 0x40 <= b <= 0x5b || 0x60 <= b <= 0x7b {
                unchanged(skip_string(c1, (b % 32) as u8), found)
            } else if 0x80 <= b <= 0x9b {
                scan_counted(c1, (b - 0x80) as u8, 1, found)
            } else if b == 0x9f {
                scan_to_break(c1, 1, found)
            } else if 0xa0 <= b <= 0xbb {
                scan_counted(c1, (b - 0xa0) as u8, 2, found)
            } else if b == 0xbf {
                scan_to_break(c1, 2, found)
            } else if b == 0xd8 {
                scan_tagged(c1, found)
            } else {
                Err(Error::UnexpectedCode(b as u8))
            }
        },
    }
}

/// The links `found` beside the cursor behind a value that holds no link.
pub open spec fn unchanged(moved: Result<CursorView, Error>, found: Seq<Seq<u8>>) -> Result<
    (Seq<Seq<u8>>, CursorView),
    Error,
> {
    match moved {
        Ok(c) => Ok((found, c)),
        Err(e) => Err(e),
    }
}

/// The links `found` and those of the values of a list (`per` is 1) or a map
/// (`per` is 2) whose length goes with the additional information `info`.
#[verifier::opaque]
pub open spec fn scan_counted(c: CursorView, info: u8, per: nat, found: Seq<Seq<u8>>) -> Result<
    (Seq<Seq<u8>>, CursorView),
    Error,
>
    decreases c.remaining(), 2nat, 0nat,
{
    match length(c, info) {
        Err(e) => Err(e),
        Ok((n, c1)) => {
            proof {
                lemma_length(c, info);
            }
            scan_items(c1, per * n, found)
        },
    }
}

/// Behind the initial byte of a tag: the links `found` and the link where
/// the tag is 42, else those of the tagged value.
#[verifier::opaque]
pub open spec fn scan_tagged(c: CursorView, found: Seq<Seq<u8>>) -> Result<
    (Seq<Seq<u8>>, CursorView),
    Error,
>
    decreases c.remaining(), 2nat, 0nat,
{
    match uint(c, 1) {
        Err(e) => Err(e),
        Ok((tag, c1)) => if tag == 42 {
            match link(c1) {
                Err(e) => Err(e),
                Ok((binary, c2)) => Ok((found.push(binary), c2)),
            }
        } else {
            scan(c1, found)
        },
    }
}

/// The links `found` and those of the `n` values at the cursor.
#[verifier::opaque]
pub open spec fn scan_items(c: CursorView, n: nat, found: Seq<Seq<u8>>) -> Result<
    (Seq<Seq<u8>>, CursorView),
    Error,
>
    decreases c.remaining(), 1nat, n,
{
    if n == 0 {
        Ok((found, c))
    } else {
        match scan(c, found) {
            Err(e) => Err(e),
            Ok((more, c1)) => if c1.remaining() < c.remaining() {
                scan_items(c1, (n - 1) as nat, more)
            } else {
                Err(Error::ShortRead)
            },
        }
    }
}

/// The links `found` and those of the values at the cursor up to the byte
/// `ff`, which come in groups of `per`.
#[verifier::opaque]
pub open spec fn scan_to_break(c: CursorView, per: nat, found: Seq<Seq<u8>>) -> Result<
    (Seq<Seq<u8>>, CursorView),
    Error,
>
    decreases c.remaining(), 2nat, 0nat,
{
    match uint(c, 1) {
        Err(e) => Err(e),
        Ok((b, c1)) => if b == 0xff {
            Ok((found, c1))
        } else {
            match scan_items(c, per, found) {
                Err(e) => Err(e),
                Ok((more, c2)) => if c2.remaining() < c.remaining() {
                    scan_to_break(c2, per, more)
                } else {
                    Err(Error::ShortRead)
                },
            }
        },
    }
}

/// Passing over `a + b` values is passing over `a` and then over `b`.
pub proof fn lemma_skip_items_split(c: CursorView, a: nat, b: nat)
    ensures
        skip_items(c, a + b) == match skip_items(c, a) {
            Ok(c1) => skip_items(c1, b),
            Err(e) => Err(e),
        },
    decreases a,
{
    reveal(skip_items);
    reveal(skip);
    if a > 0 {
        if let Ok(c1) = skip(c) {
            if c1.remaining() < c.remaining() {
                lemma_skip_items_split(c1, (a - 1) as nat, b);
            }
        }
    }
}

/// Listing the links of `a + b` values is listing those of `a` and then
/// those of `b`.
pub proof fn lemma_scan_items_split(c: CursorView, a: nat, b: nat, found: Seq<Seq<u8>>)
    ensures
        scan_items(c, a + b, found) == match scan_items(c, a, found) {
            Ok((more, c1)) => scan_items(c1, b, more),
            Err(e) => Err(e),
        },
    decreases a,
{
    reveal(scan_items);
    reveal(scan);
    if a > 0 {
        if let Ok((more, c1)) = scan(c, found) {
            if c1.remaining() < c.remaining() {
                lemma_scan_items_split(c1, (a - 1) as nat, b, more);
            }
        }
    }
}

/// Moves the cursor forward by `n` without a look at the bytes.
fn seek_forward(r: &mut ByteCursor, n: usize) -> (res: Result<(), Error>)
    ensures
        final(r)@.bytes == old(r)@.bytes,
        moved(jump(old(r)@, n as nat), res, final(r)@),
{
    if n as u64 > i64::MAX as u64 {
        return Err(Error::InvalidSeek);
    }
    r.seek(&SeekFrom::Current(n as i64))?;
    Ok(())
}

/// Moves the cursor behind the value at its position.
#[verifier::rlimit(60)]
pub fn skip_value(r: &mut ByteCursor) -> (res: Result<(), Error>)
    ensures
        final(r)@.bytes == old(r)@.bytes,
        moved(skip(old(r)@), res, final(r)@),
        res is Ok ==> final(r)@.remaining() < old(r)@.remaining(),
    decreases old(r)@.remaining(), 0nat, 0nat,
{
    proof {
        reveal(skip);
        reveal(skip_counted);
        reveal(skip_to_break);
        reveal(skip_tagged);
        lemma_uint(r@, 1);
    }
    let major = read_u8(r)?;
    proof {
        r.lemma_bounds();
    }
    match major {
        0x00..=0x17 | 0x20..=0x37 | 0xf4..=0xf7 => Ok(()),
        0x18 | 0x38 | 0xf8 => seek_forward(r, 1),
        0x19 | 0x39 | 0xf9 => seek_forward(r, 2),
        0x1a | 0x3a | 0xfa => seek_forward(r, 4),
        0x1b | 0x3b | 0xfb => seek_forward(r, 8),
        0x40..=0x5b => skip_text_or_bytes(r, major - 0x40),
        0x60..=0x7b => skip_text_or_bytes(r, major - 0x60),
        0x80..=0x9b => skip_list_or_map(r, major - 0x80, 1),
        0x9f => skip_values_to_break(r, 1),
        0xa0..=0xbb => skip_list_or_map(r, major - 0xa0, 2),
        0xbf => skip_values_to_break(r, 2),
        0xd8 => skip_tag(r),
        _ => Err(Error::UnexpectedCode(major)),
    }
}

/// Moves the cursor behind a byte or text string whose length goes with the
/// additional information `info`.
fn skip_text_or_bytes(r: &mut ByteCursor, info: u8) -> (res: Result<(), Error>)
    ensures
        final(r)@.bytes == old(r)@.bytes,
        moved(skip_string(old(r)@, info), res, final(r)@),
        res is Ok ==> final(r)@.remaining() <= old(r)@.remaining(),
{
    proof {
        lemma_length(r@, info);
    }
    let len = read_len(r, info)?;
    seek_forward(r, len)
}

/// Moves the cursor behind the values of a list (`per` is 1) or a map (`per`
/// is 2) whose length goes with the additional information `info`.
fn skip_list_or_map(r: &mut ByteCursor, info: u8, per: usize) -> (res: Result<(), Error>)
    requires
        1 <= per <= 2,
    ensures
        final(r)@.bytes == old(r)@.bytes,
        moved(skip_counted(old(r)@, info, per as nat), res, final(r)@),
        res is Ok ==> final(r)@.remaining() <= old(r)@.remaining(),
    decreases old(r)@.remaining(), 2nat, 0nat,
{
    proof {
        reveal(skip_counted);
        reveal(skip_items);
    }
    proof {
        lemma_length(r@, info);
    }
    let len = read_len(r, info)?;
    proof {
        lemma_skip_items_split(r@, len as nat, len as nat);
    }
    skip_values(r, len)?;
    if per == 2 {
        skip_values(r, len)?;
    }
    Ok(())
}

/// Moves the cursor behind the number of a tag and the value that it tags.
fn skip_tag(r: &mut ByteCursor) -> (res: Result<(), Error>)
    ensures
        final(r)@.bytes == old(r)@.bytes,
        moved(skip_tagged(old(r)@), res, final(r)@),
        res is Ok ==> final(r)@.remaining() < old(r)@.remaining(),
    decreases old(r)@.remaining(), 2nat, 0nat,
{
    proof {
        reveal(skip_tagged);
        reveal(skip);
    }
    proof {
        lemma_uint(r@, 1);
    }
    let _tag = read_u8(r)?;
    skip_value(r)
}

/// Moves the cursor behind the `n` values at its position.
pub fn skip_values(r: &mut ByteCursor, n: usize) -> (res: Result<(), Error>)
    ensures
        final(r)@.bytes == old(r)@.bytes,
        moved(skip_items(old(r)@, n as nat), res, final(r)@),
        res is Ok ==> final(r)@.remaining() <= old(r)@.remaining(),
        res is Ok && n > 0 ==> final(r)@.remaining() < old(r)@.remaining(),
    decreases old(r)@.remaining(), 1nat, n,
{
    proof {
        reveal(skip_items);
    }
    let mut i: usize = 0;
    while i < n
        invariant
            i <= n,
            r@.bytes == old(r)@.bytes,
            r@.remaining() <= old(r)@.remaining(),
            i > 0 ==> r@.remaining() < old(r)@.remaining(),
            skip_items(old(r)@, n as nat) == skip_items(r@, (n - i) as nat),
        decreases n - i,
    {
        proof {
            reveal(skip_items);
            reveal(skip);
        }
        skip_value(r)?;
        i += 1;
    }
    Ok(())
}

/// Moves the cursor behind the byte `ff` that ends the values at its
/// position, which come in groups of `per`: one for a list, two for a map.
fn skip_values_to_break(r: &mut ByteCursor, per: usize) -> (res: Result<(), Error>)
    requires
        1 <= per <= 2,
    ensures
        final(r)@.bytes == old(r)@.bytes,
        moved(skip_to_break(old(r)@, per as nat), res, final(r)@),
        res is Ok ==> final(r)@.remaining() < old(r)@.remaining(),
    decreases old(r)@.remaining(), 2nat, 0nat,
{
    proof {
        reveal(skip_to_break);
    }
    loop
        invariant_except_break
            r@.bytes == old(r)@.bytes,
            r@.remaining() <= old(r)@.remaining(),
            skip_to_break(old(r)@, per as nat) == skip_to_break(r@, per as nat),
        invariant
            1 <= per <= 2,
        ensures
            r@.bytes == old(r)@.bytes,
            r@.remaining() < old(r)@.remaining(),
            skip_to_break(old(r)@, per as nat) == Ok::<CursorView, Error>(r@),
        decreases r@.remaining(),
    {
        let ghost at = r@;
        proof {
            reveal(skip_to_break);
            reveal(skip_items);
            lemma_uint(at, 1);
        }
        let major = read_u8(r)?;
        if major == 0xff {
            break ;
        }
        r.set_position(r.position() - 1);
        assert(r@ == at);
        skip_values(r, per)?;
    }
    Ok(())
}

impl SkipOne for DagCborCodec {
    open spec fn skipped(c: CursorView) -> Result<CursorView, Error> {
        skip(c)
    }

    /// Moves `r` behind the value at its position.
    fn skip(&self, r: &mut ByteCursor) -> (res: Result<(), Error>) {
        skip_value(r)
    }
}

/// Appends the links of the value at the position of `r` to `set`, and moves
/// the cursor behind the value.
#[verifier::rlimit(60)]
pub fn references_of(r: &mut ByteCursor, set: &mut Vec<Cid>) -> (res: Result<(), Error>)
    ensures
        final(r)@.bytes == old(r)@.bytes,
        listed(scan(old(r)@, old(set).deep_view()), res, final(set).deep_view(), final(r)@),
        res is Ok ==> final(r)@.remaining() < old(r)@.remaining(),
    decreases old(r)@.remaining(), 0nat, 0nat,
{
    proof {
        reveal(scan);
        reveal(scan_counted);
        reveal(scan_to_break);
        reveal(scan_tagged);
        lemma_uint(r@, 1);
    }
    let major = read_u8(r)?;
    proof {
        r.lemma_bounds();
    }
    match major {
        0x00..=0x17 | 0x20..=0x37 | 0xf4..=0xf7 => Ok(()),
        0x18 | 0x38 | 0xf8 => seek_forward(r, 1),
        0x19 | 0x39 | 0xf9 => seek_forward(r, 2),
        0x1a | 0x3a | 0xfa => seek_forward(r, 4),
        0x1b | 0x3b | 0xfb => seek_forward(r, 8),
        0x40..=0x5b => skip_text_or_bytes(r, major - 0x40),
        0x60..=0x7b => skip_text_or_bytes(r, major - 0x60),
        0x80..=0x9b => references_of_list_or_map(r, major - 0x80, 1, set),
        0x9f => references_to_break(r, 1, set),
        0xa0..=0xbb => references_of_list_or_map(r, major - 0xa0, 2, set),
        0xbf => references_to_break(r, 2, set),
        0xd8 => references_of_tag(r, set),
        _ => Err(Error::UnexpectedCode(major)),
    }
}

/// Appends to `set` the links of the values of a list (`per` is 1) or a map
/// (`per` is 2) whose length goes with the additional information `info`.
fn references_of_list_or_map(r: &mut ByteCursor, info: u8, per: usize, set: &mut Vec<Cid>) -> (res:
    Result<(), Error>)
    requires
        1 <= per <= 2,
    ensures
        final(r)@.bytes == old(r)@.bytes,
        listed(
            scan_counted(old(r)@, info, per as nat, old(set).deep_view()),
            res,
            final(set).deep_view(),
            final(r)@,
        ),
        res is Ok ==> final(r)@.remaining() <= old(r)@.remaining(),
    decreases old(r)@.remaining(), 2nat, 0nat,
{
    proof {
        reveal(scan_counted);
        reveal(scan_items);
    }
    proof {
        lemma_length(r@, info);
    }
    let len = read_len(r, info)?;
    proof {
        lemma_scan_items_split(r@, len as nat, len as nat, set.deep_view());
    }
    references_of_values(r, len, set)?;
    if per == 2 {
        references_of_values(r, len, set)?;
    }
    Ok(())
}

/// Behind the initial byte of a tag: appends the link to `set` where the tag
/// is 42, and the links of the tagged value where it is another.
fn references_of_tag(r: &mut ByteCursor, set: &mut Vec<Cid>) -> (res: Result<(), Error>)
    ensures
        final(r)@.bytes == old(r)@.bytes,
        listed(scan_tagged(old(r)@, old(set).deep_view()), res, final(set).deep_view(), final(r)@),
        res is Ok ==> final(r)@.remaining() < old(r)@.remaining(),
    decreases old(r)@.remaining(), 2nat, 0nat,
{
    proof {
        reveal(scan_tagged);
        reveal(scan);
    }
    proof {
        lemma_uint(r@, 1);
    }
    let ghost found = set.deep_view();
    let tag = read_u8(r)?;
    if tag == 42 {
        let cid = read_link(r)?;
        let ghost binary = cid@;
        set.push(cid);
        assert(set.deep_view() =~= found.push(binary));
        Ok(())
    } else {
        references_of(r, set)
    }
}

/// Appends the links of the `n` values at the position of `r` to `set`.
pub fn references_of_values(r: &mut ByteCursor, n: usize, set: &mut Vec<Cid>) -> (res: Result<
    (),
    Error,
>)
    ensures
        final(r)@.bytes == old(r)@.bytes,
        listed(
            scan_items(old(r)@, n as nat, old(set).deep_view()),
            res,
            final(set).deep_view(),
            final(r)@,
        ),
        res is Ok ==> final(r)@.remaining() <= old(r)@.remaining(),
        res is Ok && n > 0 ==> final(r)@.remaining() < old(r)@.remaining(),
    decreases old(r)@.remaining(), 1nat, n,
{
    proof {
        reveal(scan_items);
    }
    let mut i: usize = 0;
    while i < n
        invariant
            i <= n,
            r@.bytes == old(r)@.bytes,
            r@.remaining() <= old(r)@.remaining(),
            i > 0 ==> r@.remaining() < old(r)@.remaining(),
            scan_items(old(r)@, n as nat, old(set).deep_view()) == scan_items(
                r@,
                (n - i) as nat,
                set.deep_view(),
            ),
        decreases n - i,
    {
        proof {
            reveal(scan_items);
            reveal(scan);
        }
        references_of(r, set)?;
        i += 1;
    }
    Ok(())
}

/// Appends to `set` the links of the values at the position of `r` up to the
/// byte `ff`; the values come in groups of `per`.
fn references_to_break(r: &mut ByteCursor, per: usize, set: &mut Vec<Cid>) -> (res: Result<
    (),
    Error,
>)
    requires
        1 <= per <= 2,
    ensures
        final(r)@.bytes == old(r)@.bytes,
        listed(
            scan_to_break(old(r)@, per as nat, old(set).deep_view()),
            res,
            final(set).deep_view(),
            final(r)@,
        ),
        res is Ok ==> final(r)@.remaining() < old(r)@.remaining(),
    decreases old(r)@.remaining(), 2nat, 0nat,
{
    proof {
        reveal(scan_to_break);
    }
    loop
        invariant_except_break
            r@.bytes == old(r)@.bytes,
            r@.remaining() <= old(r)@.remaining(),
            scan_to_break(old(r)@, per as nat, old(set).deep_view()) == scan_to_break(
                r@,
                per as nat,
                set.deep_view(),
            ),
        invariant
            1 <= per <= 2,
        ensures
            r@.bytes == old(r)@.bytes,
            r@.remaining() < old(r)@.remaining(),
            scan_to_break(old(r)@, per as nat, old(set).deep_view()) == Ok::<
                (Seq<Seq<u8>>, CursorView),
                Error,
            >((set.deep_view(), r@)),
        decreases r@.remaining(),
    {
        let ghost at = r@;
        proof {
            reveal(scan_to_break);
            reveal(scan_items);
            lemma_uint(at, 1);
        }
        let major = read_u8(r)?;
        if major == 0xff {
            break ;
        }
        r.set_position(r.position() - 1);
        assert(r@ == at);
        references_of_values(r, per, set)?;
    }
    Ok(())
}

impl References<DagCborCodec> for Ipld {
    open spec fn links(c: CursorView, found: Seq<Seq<u8>>) -> Result<
        (Seq<Seq<u8>>, CursorView),
        Error,
    > {
        scan(c, found)
    }

    /// Appends the links of the encoded value at the position of `r` to
    /// `set`.
    fn references(_c: DagCborCodec, r: &mut ByteCursor, set: &mut Vec<Cid>) -> (res: Result<
        (),
        Error,
    >) {
        references_of(r, set)
    }
}

} // verus!
