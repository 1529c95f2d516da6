//! Peer identities, decoded by libp2p.

use vstd::prelude::*;
use crate::ident::{bytes_duplicate, bytes_same, Ident};

verus! {

/// The identity of a network endpoint: the bytes of its multihash as libp2p
/// writes them.
#[derive(Clone, Debug, PartialEq, Eq, Hash)]
pub struct PeerId {
    bytes: Vec<u8>,
}

impl View for PeerId {
    type V = Seq<u8>;

    closed spec fn view(&self) -> Seq<u8> {
        self.bytes@
    }
}

/// What `libp2p::PeerId::from_bytes` makes of a byte string: the bytes
/// (`libp2p::PeerId::to_bytes`) of the peer identity it decodes, or nothing
/// where it rejects the string.
pub uninterp spec fn decoded_peer_id(hash: Seq<u8>) -> Option<Seq<u8>>;

/// Calls `libp2p::PeerId::from_bytes`, which parses a multihash and accepts it
/// as a peer identity or returns an error, and keeps an accepted identity as
/// the bytes that `libp2p::PeerId::to_bytes` gives for it. Nothing is claimed
/// of which strings are accepted, only that the outcome depends on the string
/// alone.
#[verifier::external_body]
fn decode_peer_id(hash: &Vec<u8>) -> (r: Option<PeerId>)
    ensures
        match r {
            Some(peer) => decoded_peer_id(hash@) == Some(peer@),
            None => decoded_peer_id(hash@).is_none(),
        },
{
    match libp2p::PeerId::from_bytes(hash.as_slice()) {
        Ok(peer) => Some(PeerId { bytes: peer.to_bytes() }),
        Err(_) => None,
    }
}

impl PeerId {
    /// Decodes a peer identity from the bytes of a multihash. Strings that
    /// are no peer identity give `None`.
    pub fn from_bytes(hash: &Vec<u8>) -> (r: Option<PeerId>)
        ensures
            match r {
                Some(peer) => decoded_peer_id(hash@) == Some(peer@),
                None => decoded_peer_id(hash@).is_none(),
            },
    {
        decode_peer_id(hash)
    }

    /// The bytes of the identity's multihash.
    pub fn to_bytes(&self) -> (r: Vec<u8>)
        ensures
            r@ == self@,
    {
        bytes_duplicate(&self.bytes)
    }
}

impl Ident for PeerId {
    fn same(&self, other: &Self) -> (r: bool) {
        bytes_same(&self.bytes, &other.bytes)
    }

    fn duplicate(&self) -> (r: Self) {
        PeerId { bytes: bytes_duplicate(&self.bytes) }
    }
}

} // verus!
