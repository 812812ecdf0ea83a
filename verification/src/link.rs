//! Content identifiers, held in their binary form.

use vstd::prelude::*;
use vstd::slice::slice_to_vec;
use crate::bytes::same_bytes;
use crate::error::Error;

verus! {

/// The binary form of the content identifier that `bytes` begin with: what
/// `cid::Cid::to_bytes` gives for the identifier that `cid::Cid::try_from`
/// reads from `bytes`, or nothing where it reads none.
pub uninterp spec fn cid_binary(bytes: Seq<u8>) -> Option<Seq<u8>>;

/// Calls `cid::Cid::try_from` on `bytes` and hands back, in its binary form
/// from `cid::Cid::to_bytes`, the identifier that it read, or nothing where
/// it reports an error.
#[verifier::external_body]
fn cid_read(bytes: &[u8]) -> (res: Option<Vec<u8>>)
    ensures
        match res {
            Some(binary) => cid_binary(bytes@) == Some(binary@),
            None => cid_binary(bytes@) is None,
        },
{
    match ::cid::Cid::try_from(bytes) {
        Ok(id) => Some(id.to_bytes()),
        Err(_) => None,
    }
}

/// A content identifier: the bytes of its binary form.
#[derive(Clone, Debug, PartialEq, Eq)]
pub struct Cid {
    bytes: Vec<u8>,
}

impl View for Cid {
    type V = Seq<u8>;

    closed spec fn view(&self) -> Seq<u8> {
        self.bytes@
    }
}

impl DeepView for Cid {
    type V = Seq<u8>;

    open spec fn deep_view(&self) -> Seq<u8> {
        self@
    }
}

/// Whether `binary` is the binary form of the identifier that it holds.
pub open spec fn canonical(binary: Seq<u8>) -> bool {
    cid_binary(binary) == Some(binary)
}

impl Cid {
    /// Reads the content identifier that `bytes` begin with.
    pub fn read(bytes: &[u8]) -> (res: Result<Cid, Error>)
        ensures
            match cid_binary(bytes@) {
                Some(binary) => res is Ok && res.unwrap()@ == binary,
                None => res == Err::<Cid, Error>(Error::InvalidLink),
            },
    {
        match cid_read(bytes) {
            Some(binary) => Ok(Cid { bytes: binary }),
            None => Err(Error::InvalidLink),
        }
    }

    /// A copy of the identifier.
    pub fn duplicate(&self) -> (copy: Cid)
        ensures
            copy@ == self@,
    {
        Cid { bytes: slice_to_vec(self.bytes.as_slice()) }
    }

    /// The binary form of the identifier.
    pub fn to_bytes(&self) -> (bytes: Vec<u8>)
        ensures
            bytes@ == self@,
    {
        slice_to_vec(self.bytes.as_slice())
    }

    /// The binary form of the identifier.
    pub fn as_bytes(&self) -> (bytes: &[u8])
        ensures
            bytes@ == self@,
    {
        self.bytes.as_slice()
    }

    /// Whether the identifier is held in the form in which it is read back.
    pub fn is_canonical(&self) -> (b: bool)
        ensures
            b == canonical(self@),
    {
        match cid_read(self.bytes.as_slice()) {
            Some(binary) => same_bytes(binary.as_slice(), self.bytes.as_slice()),
            None => false,
        }
    }
}

} // verus!
