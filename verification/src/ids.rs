//! Stage identifiers.
//!
//! A `StageId` is a 128-bit ULID value. Its text form is the 26-character
//! Crockford base32 encoding, most significant digit first.

use vstd::prelude::*;
use vstd::arithmetic::power::pow;
use crate::ulid::Ulid;

verus! {

/// Domain marker type for stages in the topology.
#[derive(Debug, Clone, Copy, PartialEq, Eq, Hash)]
pub struct Stage;

/// Phantom marker type for strongly connected components.
#[derive(Debug, Clone, Copy, PartialEq, Eq, Hash)]
pub struct Scc;

/// Strongly typed stage identifier: the 128-bit ULID value of the stage.
#[derive(Debug, Clone, Copy, PartialEq, Eq, Structural, Hash, PartialOrd, Ord)]
pub struct StageId {
    pub value: u128,
}

/// The unsigned integer whose big-endian byte string is `b`.
pub open spec fn be_value(b: Seq<u8>) -> int
    decreases b.len(),
{
    if b.len() == 0 {
        0
    } else {
        be_value(b.drop_last()) * 256 + b.last()
    }
}

/// The 16 big-endian bytes of a 128-bit value: byte `i` has weight
/// `256^(15 - i)`.
pub open spec fn be_bytes(v: u128) -> Seq<u8> {
    Seq::new(16, |i: int| ((v as int / pow(256, (15 - i) as nat)) % 256) as u8)
}

/// The Crockford base32 alphabet used by ULIDs.
pub open spec fn crockford_digit(d: int) -> char {
    seq![
        '0', '1', '2', '3', '4', '5', '6', '7', '8', '9', 'A', 'B', 'C', 'D', 'E', 'F', 'G',
        'H', 'J', 'K', 'M', 'N', 'P', 'Q', 'R', 'S', 'T', 'V', 'W', 'X', 'Y', 'Z',
    ][d]
}

/// The canonical 26-character text of a ULID value: digit `i` is the base32
/// digit of weight `32^(25 - i)`.
pub open spec fn ulid_text(v: u128) -> Seq<char> {
    Seq::new(26, |i: int| crockford_digit((v as int / pow(32, (25 - i) as nat)) % 32))
}

/// `obzenflow_idkit::Id::from_bytes`: builds the ULID whose value is the
/// big-endian reading of the 16 bytes; the result is that value.
#[verifier::external_body]
fn idkit_from_bytes(bytes: [u8; 16]) -> (r: u128)
    ensures
        r == be_value(bytes@),
{
    obzenflow_idkit::Id::<Stage>::from_bytes(bytes).as_ulid().0
}

/// `obzenflow_idkit::Id::to_bytes`: the big-endian 16-byte form of the ULID
/// value.
#[verifier::external_body]
fn idkit_to_bytes(value: u128) -> (r: [u8; 16])
    ensures
        r@ == be_bytes(value),
        r@.len() == 16,
        be_value(r@) == value,
{
    obzenflow_idkit::Id::<Stage>::from_ulid(obzenflow_idkit::Ulid(value)).to_bytes()
}

/// `Display` of `obzenflow_idkit::Id` (delegating to `ulid::Ulid`): the
/// 26-character Crockford base32 text of the value.
#[verifier::external_body]
fn idkit_text(value: u128) -> (r: String)
    ensures
        r@ == ulid_text(value),
{
    obzenflow_idkit::Id::<Stage>::from_ulid(obzenflow_idkit::Ulid(value)).to_string()
}

/// `u128::to_be_bytes`: the big-endian bytes of the value.
#[verifier::external_body]
pub(crate) fn u128_be_bytes(value: u128) -> (r: [u8; 16])
    ensures
        r@ == be_bytes(value),
        r@.len() == 16,
        be_value(r@) == value,
{
    value.to_be_bytes()
}

impl StageId {
    /// Create from the raw big-endian bytes of a ULID.
    pub fn from_bytes(bytes: [u8; 16]) -> (r: StageId)
        ensures
            r.value == be_value(bytes@),
    {
        StageId { value: idkit_from_bytes(bytes) }
    }

    /// The raw big-endian bytes of the ULID.
    pub fn to_bytes(&self) -> (r: [u8; 16])
        ensures
            r@ == be_bytes(self.value),
            r@.len() == 16,
            be_value(r@) == self.value,
    {
        idkit_to_bytes(self.value)
    }

    /// An identifier with this raw 128-bit value.
    pub fn new_const(val: u128) -> (r: StageId)
        ensures
            r.value == val,
    {
        StageId { value: val }
    }

    /// The identifier of a ULID.
    pub fn from_ulid(ulid: Ulid) -> (r: StageId)
        ensures
            r.value == ulid.value(),
    {
        StageId { value: ulid.to_u128() }
    }

    /// The ULID of this identifier.
    pub fn as_ulid(&self) -> (r: Ulid)
        ensures
            r == Ulid::of_value(self.value),
    {
        Ulid::from_u128(self.value)
    }

    /// The low 64 bits of the value.
    pub fn as_u64(&self) -> (r: u64)
        ensures
            r == self.value % 0x1_0000_0000_0000_0000,
    {
        (self.value % 0x1_0000_0000_0000_0000) as u64
    }

    /// The ULID text of this identifier.
    pub fn to_string(&self) -> (r: String)
        ensures
            r@ == ulid_text(self.value),
    {
        idkit_text(self.value)
    }
}

} // verus!
