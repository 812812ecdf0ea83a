//! The shortest form: no framing of a number is shorter than the one that
//! is written.

use vstd::prelude::*;
use crate::bytes::{lemma_be_bytes_len, span};
use crate::framing::{head, width};

verus! {

/// Whether a framing with `trailing` bytes behind the initial byte can hold
/// `value`: the initial byte alone holds up to 23, and 1, 2, 4 or 8 bytes
/// hold what fits them.
pub open spec fn holds(trailing: nat, value: nat) -> bool {
    if trailing == 0 {
        value <= 0x17
    } else {
        (trailing == 1 || trailing == 2 || trailing == 4 || trailing == 8) && value < span(trailing)
    }
}

/// Every length prefix and every magnitude is written in the shortest form:
/// the framing that is written can hold the value, and no framing that can
/// hold the value is shorter.
pub proof fn lemma_shortest_form(major: u8, value: nat, trailing: nat)
    requires
        value <= u64::MAX,
    ensures
        head(major, value).len() == 1 + width(value),
        holds(width(value), value),
        holds(trailing, value) ==> head(major, value).len() <= 1 + trailing,
{
    crate::bytes::lemma_spans();
    lemma_be_bytes_len(value, width(value));
}

} // verus!
