//! The values that the ledger holds: fingerprints, addresses, stakes, errors.

use vstd::prelude::*;

verus! {

/// An opaque 32-byte identifier of an identity or a track, such as a
/// content hash.
#[derive(Clone, Copy, Debug, PartialEq, Eq, Hash)]
pub struct Fingerprint {
    pub bytes: [u8; 32],
}

impl Fingerprint {
    pub fn new(bytes: [u8; 32]) -> (r: Fingerprint)
        ensures
            r.bytes == bytes,
    {
        Fingerprint { bytes }
    }

    /// Compares two fingerprints byte by byte.
    pub fn same_as(&self, other: &Fingerprint) -> (r: bool)
        ensures
            r == (*self == *other),
    {
        let mut i: usize = 0;
        while i < 32
            invariant
                0 <= i <= 32,
                forall|j: int| 0 <= j < i ==> self.bytes[j] == other.bytes[j],
            decreases 32 - i,
        {
            if self.bytes[i] != other.bytes[i] {
                return false;
            }
            i = i + 1;
        }
        proof {
            assert(self.bytes@ =~= other.bytes@);
            vstd::array::axiom_array_ext_equal(self.bytes, other.bytes);
        }
        true
    }
}

/// A payable account or contract address, held as the 56 characters of its
/// strkey text (`G...` for an account, `C...` for a contract).
#[derive(Clone, Copy, Debug, PartialEq, Eq, Hash)]
pub struct Address {
    pub strkey: [u8; 56],
}

impl Address {
    pub fn new(strkey: [u8; 56]) -> (r: Address)
        ensures
            r.strkey == strkey,
    {
        Address { strkey }
    }
}

/// One stakeholder of a track: an address and its weight in basis points.
#[derive(Clone, Copy, Debug, PartialEq, Eq)]
pub struct Stake {
    pub addr: Address,
    pub shares: u32,
}

/// The ways an operation on the ledger fails.
#[derive(Clone, Copy, Debug, PartialEq, Eq, Structural)]
pub enum Error {
    /// The stake lists differ in length, are empty, or their weights do not
    /// add up to 10000.
    InvalidPercents,
    /// The call lacks the authorization of the address acted upon.
    NotAuthorized,
    /// No track is registered under the fingerprint.
    TrackNotFound,
    /// No identity is registered under the fingerprint.
    IdentityNotFound,
    /// A token transfer was refused.
    TransferFailed,
}

} // verus!
