//! Peer identities.

use crate::keys::{same_key, xor_bytes, xor_distance, LookupKey};
use crate::table::TableKey;
use crate::text::{encode_hex, hex};
use vstd::prelude::*;

verus! {

/// A position in the 256-bit identifier space.
pub type Key = LookupKey;

/// Stable 256-bit identity of a peer.
#[derive(Debug, Clone, Copy, PartialEq, Eq, Hash)]
pub struct PeerId {
    bytes: LookupKey,
}

impl View for PeerId {
    type V = Seq<u8>;

    closed spec fn view(&self) -> Seq<u8> {
        self.bytes@
    }
}

/// An identity is its bytes, and there are thirty-two of them.
pub proof fn lemma_peer_is_its_bytes(left: PeerId, right: PeerId)
    ensures
        left@ == right@ <==> left == right,
        left.key() == right.key() <==> left == right,
        left@ == left.key()@,
        left@.len() == 32,
        PeerId::with_key(left.key()) == left,
{
    if left@ == right@ {
        assert(left.bytes =~= right.bytes);
    }
}

impl PeerId {
    /// The bytes of the identity, as a key.
    pub closed spec fn key(self) -> LookupKey {
        self.bytes
    }

    /// The identity with the given bytes.
    pub closed spec fn with_key(bytes: LookupKey) -> PeerId {
        PeerId { bytes }
    }

    /// The identity with the given bytes.
    pub fn from_bytes(bytes: LookupKey) -> (peer: Self)
        ensures
            peer@ == bytes@,
            peer.key() == bytes,
            peer == PeerId::with_key(bytes),
    {
        PeerId { bytes }
    }

    /// The bytes of the identity.
    pub fn as_bytes(&self) -> (bytes: &LookupKey)
        ensures
            bytes@ == self@,
            *bytes == self.key(),
    {
        &self.bytes
    }

    /// The bytes of the identity.
    pub fn to_bytes(&self) -> (bytes: &LookupKey)
        ensures
            bytes@ == self@,
            *bytes == self.key(),
    {
        &self.bytes
    }

    /// The identity as hexadecimal text.
    pub fn to_hex(&self) -> (text: String)
        ensures
            text@ == hex(self@),
    {
        encode_hex(&self.bytes)
    }

    /// Unsigned 256-bit XOR distance to another identity.
    pub fn xor_distance(&self, other: &PeerId) -> (distance: Key)
        ensures
            distance@ == xor_bytes(self@, other@),
    {
        xor_distance(&self.bytes, &other.bytes)
    }

    /// Whether two identities are the same.
    pub fn is(&self, other: &PeerId) -> (same: bool)
        ensures
            same == (*self == *other),
            same == (self@ == other@),
    {
        same_key(&self.bytes, &other.bytes)
    }
}

impl TableKey for PeerId {
    fn same(&self, other: &Self) -> (same: bool) {
        same_key(&self.bytes, &other.bytes)
    }

    fn duplicate(&self) -> (copy: Self) {
        *self
    }
}

} // verus!
