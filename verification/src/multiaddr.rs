//! Network addresses as sequences of protocol layers, and the peer identity
//! an address leads to.

use vstd::prelude::*;
use crate::ident::{bytes_duplicate, bytes_same, Ident};
use crate::id_set::{lemma_values_ends, lemma_values_step, values, IdSet};
use crate::peer_id::{decoded_peer_id, PeerId};

verus! {

/// One layer of a network address.
#[derive(Clone, Debug, PartialEq, Eq, Hash)]
pub enum Protocol {
    /// The layer that names a peer, holding the bytes of the peer's multihash.
    P2p(Vec<u8>),
    /// Any other layer (transport, port, ...), holding its encoded bytes.
    Other(Vec<u8>),
}

/// The value of a [`Protocol`].
pub enum ProtocolView {
    P2p(Seq<u8>),
    Other(Seq<u8>),
}

impl View for Protocol {
    type V = ProtocolView;

    open spec fn view(&self) -> ProtocolView {
        match self {
            Protocol::P2p(hash) => ProtocolView::P2p(hash@),
            Protocol::Other(bytes) => ProtocolView::Other(bytes@),
        }
    }
}

impl Ident for Protocol {
    fn same(&self, other: &Self) -> (r: bool) {
        match (self, other) {
            (Protocol::P2p(a), Protocol::P2p(b)) => bytes_same(a, b),
            (Protocol::Other(a), Protocol::Other(b)) => bytes_same(a, b),
            _ => false,
        }
    }

    fn duplicate(&self) -> (r: Self) {
        match self {
            Protocol::P2p(hash) => Protocol::P2p(bytes_duplicate(hash)),
            Protocol::Other(bytes) => Protocol::Other(bytes_duplicate(bytes)),
        }
    }
}

/// A network address: an ordered sequence of protocol layers.
#[derive(Clone, Debug, PartialEq, Eq, Hash)]
pub struct Multiaddr {
    protocols: Vec<Protocol>,
}

impl View for Multiaddr {
    type V = Seq<ProtocolView>;

    closed spec fn view(&self) -> Seq<ProtocolView> {
        values(self.protocols@)
    }
}

impl Multiaddr {
    /// The address made of the given layers, outermost first.
    pub fn new(protocols: Vec<Protocol>) -> (r: Self)
        ensures
            r@ == values(protocols@),
    {
        Multiaddr { protocols }
    }

    /// The layers of the address, outermost first.
    pub fn protocols(&self) -> (r: &Vec<Protocol>)
        ensures
            values(r@) == self@,
    {
        &self.protocols
    }
}

impl Ident for Multiaddr {
    fn same(&self, other: &Self) -> (r: bool) {
        let n: usize = self.protocols.len();
        if n != other.protocols.len() {
            assert(self@.len() != other@.len());
            return false;
        }
        let mut i: usize = 0;
        while i < n
            invariant
                n == self.protocols.len(),
                n == other.protocols.len(),
                i <= n,
                forall|j: int| 0 <= j < i ==> self@[j] == other@[j],
            decreases n - i,
        {
            if !self.protocols[i].same(&other.protocols[i]) {
                assert(self@[i as int] != other@[i as int]);
                return false;
            }
            i += 1;
        }
        assert(self@ =~= other@);
        true
    }

    fn duplicate(&self) -> (r: Self) {
        let mut protocols: Vec<Protocol> = Vec::new();
        let mut i: usize = 0;
        while i < self.protocols.len()
            invariant
                i <= self.protocols.len(),
                values(protocols@) == self@.take(i as int),
            decreases self.protocols.len() - i,
        {
            let p = self.protocols[i].duplicate();
            protocols.push(p);
            assert(values(protocols@) =~= self@.take(i as int).push(self@[i as int]));
            i += 1;
        }
        assert(self@.take(self.protocols.len() as int) =~= self@);
        Multiaddr { protocols }
    }
}

/// The peer identity an address leads to: the one its final layer names, if
/// that layer names a peer and the name decodes.
pub open spec fn peer_id_of(addr: Seq<ProtocolView>) -> Option<Seq<u8>> {
    if addr.len() == 0 {
        None
    } else {
        match addr.last() {
            ProtocolView::P2p(hash) => decoded_peer_id(hash),
            ProtocolView::Other(_) => None,
        }
    }
}

/// Derives the peer identity of an address from its final layer. Layers
/// before the last are not looked at, and an address that does not end in a
/// decodable peer layer has no peer identity.
pub fn peer_id_from_multiaddr(addr: &Multiaddr) -> (r: Option<PeerId>)
    ensures
        match r {
            Some(peer) => peer_id_of(addr@) == Some(peer@),
            None => peer_id_of(addr@).is_none(),
        },
{
    let n: usize = addr.protocols.len();
    if n == 0 {
        return None;
    }
    match &addr.protocols[n - 1] {
        Protocol::P2p(hash) => PeerId::from_bytes(hash),
        Protocol::Other(_) => None,
    }
}

/// The peer identities that a set of addresses leads to. Addresses without
/// a peer identity add nothing.
pub open spec fn peer_ids_of(addrs: Set<Seq<ProtocolView>>) -> Set<Seq<u8>> {
    Set::new(
        |p: Seq<u8>|
            exists|addr: Seq<ProtocolView>| #[trigger]
                addrs.contains(addr) && peer_id_of(addr) == Some(p),
    )
}

/// No address leads to no peer identity.
pub proof fn lemma_peer_ids_none()
    ensures
        peer_ids_of(Set::empty()) == Set::<Seq<u8>>::empty(),
{
    assert(peer_ids_of(Set::empty()) =~= Set::<Seq<u8>>::empty());
}

/// One more address adds its own peer identity, if it has one, and nothing
/// else.
pub proof fn lemma_peer_ids_step(addrs: Set<Seq<ProtocolView>>, addr: Seq<ProtocolView>)
    ensures
        peer_ids_of(addrs.insert(addr)) == match peer_id_of(addr) {
            Some(p) => peer_ids_of(addrs).insert(p),
            None => peer_ids_of(addrs),
        },
{
    let more = peer_ids_of(addrs.insert(addr));
    let expected = match peer_id_of(addr) {
        Some(p) => peer_ids_of(addrs).insert(p),
        None => peer_ids_of(addrs),
    };
    assert forall|p: Seq<u8>| more.contains(p) <==> expected.contains(p) by {
        if more.contains(p) {
            let w = choose|w: Seq<ProtocolView>| #[trigger]
                addrs.insert(addr).contains(w) && peer_id_of(w) == Some(p);
            if w != addr {
                assert(addrs.contains(w));
            }
        }
        if peer_ids_of(addrs).contains(p) {
            let w = choose|w: Seq<ProtocolView>| #[trigger]
                addrs.contains(w) && peer_id_of(w) == Some(p);
            assert(addrs.insert(addr).contains(w));
        }
        if peer_id_of(addr) == Some(p) {
            assert(addrs.insert(addr).contains(addr));
        }
    }
}

/// Collects the peer identities of a set of addresses. An address without a
/// peer identity is passed over.
pub fn addresses_to_peer_ids(addresses: &IdSet<Multiaddr>) -> (r: IdSet<PeerId>)
    ensures
        r@ == peer_ids_of(addresses@),
{
    let addrs = addresses.as_slice();
    let mut r: IdSet<PeerId> = IdSet::new();
    let mut i: usize = 0;
    proof {
        lemma_values_ends(addrs@);
        lemma_peer_ids_none();
    }
    while i < addrs.len()
        invariant
            i <= addrs.len(),
            r@ == peer_ids_of(values(addrs@.take(i as int)).to_set()),
        decreases addrs.len() - i,
    {
        proof {
            lemma_values_step(addrs@, i as int);
            lemma_peer_ids_step(values(addrs@.take(i as int)).to_set(), addrs@[i as int]@);
        }
        match peer_id_from_multiaddr(&addrs[i]) {
            Some(peer) => {
                r.insert(peer);
            },
            None => {},
        }
        i += 1;
    }
    proof {
        lemma_values_ends(addrs@);
    }
    r
}

} // verus!
