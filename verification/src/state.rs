//! The abstract state of the cache, its invariant, and what the operations
//! do to it.

use vstd::prelude::*;
use crate::multiaddr::{peer_ids_of, ProtocolView};
use crate::peer_index::{linked, no_empty_entry, unlinked};

verus! {

/// The two directions of the index as mathematical maps: for each authority
/// its addresses, and for each peer identity the authorities behind it.
pub struct CacheView {
    pub addresses: Map<Seq<u8>, Set<Seq<ProtocolView>>>,
    pub authorities: Map<Seq<u8>, Set<Seq<u8>>>,
}

impl CacheView {
    /// The state without any authority or peer.
    pub open spec fn empty() -> CacheView {
        CacheView { addresses: Map::empty(), authorities: Map::empty() }
    }

    /// The peer identities that the addresses held for `authority` lead to;
    /// none for an authority that is not held.
    pub open spec fn peers_of(self, authority: Seq<u8>) -> Set<Seq<u8>> {
        if self.addresses.contains_key(authority) {
            peer_ids_of(self.addresses[authority])
        } else {
            Set::empty()
        }
    }

    /// The authorities whose addresses lead to `peer`.
    pub open spec fn authorities_behind(self, peer: Seq<u8>) -> Set<Seq<u8>> {
        Set::new(|a: Seq<u8>| self.peers_of(a).contains(peer))
    }

    /// The invariant of the cache. An authority is named under a peer
    /// exactly if one of its addresses leads to that peer, and no peer is
    /// held with an empty set of authorities.
    pub open spec fn consistent(self) -> bool {
        &&& forall|a: Seq<u8>, p: Seq<u8>|
            #![trigger self.peers_of(a).contains(p)]
            #![trigger self.authorities[p].contains(a)]
            self.peers_of(a).contains(p) <==> self.authorities.contains_key(p)
                && self.authorities[p].contains(a)
        &&& no_empty_entry(self.authorities)
    }

    /// The state after `addrs` has been offered as the address set of
    /// `authority`. Addresses that lead to no peer identity are turned down
    /// and leave the state as it is. Otherwise they replace what was held,
    /// the authority is added under the peers it newly leads to and taken
    /// out from under those it no longer leads to.
    pub open spec fn insert(self, authority: Seq<u8>, addrs: Set<Seq<ProtocolView>>) -> CacheView {
        let new_peers = peer_ids_of(addrs);
        let old_peers = self.peers_of(authority);
        if new_peers.is_empty() {
            self
        } else {
            CacheView {
                addresses: self.addresses.insert(authority, addrs),
                authorities: unlinked(
                    linked(self.authorities, authority, new_peers.difference(old_peers)),
                    authority,
                    old_peers.difference(new_peers),
                ),
            }
        }
    }

    /// The state after `authority` has been dropped: its addresses are gone
    /// and it is taken out from under every peer they led to.
    pub open spec fn forget(self, authority: Seq<u8>) -> CacheView {
        CacheView {
            addresses: self.addresses.remove(authority),
            authorities: unlinked(self.authorities, authority, self.peers_of(authority)),
        }
    }

    /// The state after every authority outside `keep` has been dropped.
    pub open spec fn retain(self, keep: Set<Seq<u8>>) -> CacheView {
        CacheView {
            addresses: self.addresses.restrict(keep),
            authorities: Map::new(
                |p: Seq<u8>|
                    self.authorities.contains_key(p) && !self.authorities[p].intersect(
                        keep,
                    ).is_empty(),
                |p: Seq<u8>| self.authorities[p].intersect(keep),
            ),
        }
    }
}

/// The empty state is consistent.
pub proof fn lemma_empty_consistent()
    ensures
        CacheView::empty().consistent(),
{
}

/// In a consistent state the reverse direction is determined by the
/// forward one: a peer is held exactly if some authority's addresses lead to
/// it, with exactly those authorities.
pub proof fn lemma_reverse_determined(s: CacheView)
    requires
        s.consistent(),
    ensures
        forall|p: Seq<u8>|
            s.authorities.contains_key(p) <==> !(#[trigger] s.authorities_behind(p)).is_empty(),
        forall|p: Seq<u8>| #[trigger]
            s.authorities.contains_key(p) ==> s.authorities[p] == s.authorities_behind(p),
{
    assert forall|p: Seq<u8>| #[trigger]
        s.authorities.contains_key(p) implies s.authorities[p] == s.authorities_behind(p) by {
        assert(s.authorities[p] =~= s.authorities_behind(p));
    }
    assert forall|p: Seq<u8>|
        s.authorities.contains_key(p) <==> !(#[trigger] s.authorities_behind(p)).is_empty() by {
        if !s.authorities_behind(p).is_empty() {
            let a = choose|a: Seq<u8>| s.authorities_behind(p).contains(a);
            assert(s.peers_of(a).contains(p));
        }
    }
}

/// Two consistent states with the same forward direction are the same state.
pub proof fn lemma_consistent_unique(s: CacheView, t: CacheView)
    requires
        s.consistent(),
        t.consistent(),
        s.addresses == t.addresses,
    ensures
        s == t,
{
    lemma_reverse_determined(s);
    lemma_reverse_determined(t);
    assert forall|p: Seq<u8>| s.authorities_behind(p) == t.authorities_behind(p) by {
        assert(s.authorities_behind(p) =~= t.authorities_behind(p));
    }
    assert(s.authorities =~= t.authorities);
}

/// Inserting keeps a consistent state consistent.
pub proof fn lemma_insert_consistent(
    s: CacheView,
    authority: Seq<u8>,
    addrs: Set<Seq<ProtocolView>>,
)
    requires
        s.consistent(),
    ensures
        s.insert(authority, addrs).consistent(),
{
    let t = s.insert(authority, addrs);
    let new_peers = peer_ids_of(addrs);
    let old_peers = s.peers_of(authority);
    if !new_peers.is_empty() {
        let mid = linked(s.authorities, authority, new_peers.difference(old_peers));
        assert forall|a: Seq<u8>, p: Seq<u8>|
            #![trigger t.peers_of(a).contains(p)]
            #![trigger t.authorities[p].contains(a)]
            t.peers_of(a).contains(p) <==> t.authorities.contains_key(p)
                && t.authorities[p].contains(a) by {
            // The state before names `a` under `p` exactly if `a` led to `p`.
            assert(s.peers_of(a).contains(p) <==> s.authorities.contains_key(p)
                && s.authorities[p].contains(a));
            if a != authority && mid.contains_key(p) && mid[p].contains(a) {
                assert(mid[p].remove(authority).contains(a));
            }
        }
        assert forall|p: Seq<u8>| #[trigger]
            t.authorities.contains_key(p) implies !t.authorities[p].is_empty() by {
            if new_peers.difference(old_peers).contains(p) {
                assert(mid[p].contains(authority));
            }
        }
    }
}

/// Turning down: addresses that lead to no peer identity change nothing,
/// whatever was held before.
pub proof fn lemma_insert_without_peer_ids(
    s: CacheView,
    authority: Seq<u8>,
    addrs: Set<Seq<ProtocolView>>,
)
    requires
        peer_ids_of(addrs).is_empty(),
    ensures
        s.insert(authority, addrs) == s,
{
}

/// Inserting the same addresses for the same authority a second time
/// changes nothing.
pub proof fn lemma_insert_idempotent(
    s: CacheView,
    authority: Seq<u8>,
    addrs: Set<Seq<ProtocolView>>,
)
    ensures
        s.insert(authority, addrs).insert(authority, addrs) == s.insert(authority, addrs),
{
    let t = s.insert(authority, addrs);
    let new_peers = peer_ids_of(addrs);
    if !new_peers.is_empty() {
        assert(new_peers.difference(new_peers) =~= Set::<Seq<u8>>::empty());
        assert(linked(t.authorities, authority, Set::empty()) =~= t.authorities);
        assert(unlinked(t.authorities, authority, Set::empty()) =~= t.authorities);
        assert(t.addresses.insert(authority, addrs) =~= t.addresses);
    }
}

/// After an insert the authority is found with the addresses given, and
/// under exactly the peers they lead to.
pub proof fn lemma_insert_links(
    s: CacheView,
    authority: Seq<u8>,
    addrs: Set<Seq<ProtocolView>>,
    peer: Seq<u8>,
)
    requires
        s.consistent(),
        !peer_ids_of(addrs).is_empty(),
    ensures
        s.insert(authority, addrs).addresses.contains_key(authority),
        s.insert(authority, addrs).addresses[authority] == addrs,
        peer_ids_of(addrs).contains(peer) <==> s.insert(authority, addrs).authorities.contains_key(
            peer,
        ) && s.insert(authority, addrs).authorities[peer].contains(authority),
{
    lemma_insert_consistent(s, authority, addrs);
    let t = s.insert(authority, addrs);
    assert(t.peers_of(authority).contains(peer) <==> t.authorities.contains_key(peer)
        && t.authorities[peer].contains(authority));
}

/// An insert leaves the other authorities where they were: their addresses
/// and the peers they are named under do not change.
pub proof fn lemma_insert_keeps_others(
    s: CacheView,
    authority: Seq<u8>,
    addrs: Set<Seq<ProtocolView>>,
    other: Seq<u8>,
    peer: Seq<u8>,
)
    requires
        other != authority,
    ensures
        s.insert(authority, addrs).addresses.contains_key(other) == s.addresses.contains_key(
            other,
        ),
        s.addresses.contains_key(other) ==> s.insert(authority, addrs).addresses[other]
            == s.addresses[other],
        (s.insert(authority, addrs).authorities.contains_key(peer) && s.insert(
            authority,
            addrs,
        ).authorities[peer].contains(other)) <==> (s.authorities.contains_key(peer)
            && s.authorities[peer].contains(other)),
{
    let new_peers = peer_ids_of(addrs);
    let old_peers = s.peers_of(authority);
    if !new_peers.is_empty() {
        let mid = linked(s.authorities, authority, new_peers.difference(old_peers));
        if mid.contains_key(peer) && mid[peer].contains(other) {
            assert(mid[peer].remove(authority).contains(other));
        }
    }
}

/// Pruning on insert: a peer that was held for one authority alone is gone
/// once that authority's new addresses no longer lead to it.
pub proof fn lemma_insert_prunes(
    s: CacheView,
    authority: Seq<u8>,
    addrs: Set<Seq<ProtocolView>>,
    peer: Seq<u8>,
)
    requires
        s.consistent(),
        s.authorities.contains_key(peer),
        s.authorities[peer] == set![authority],
        !peer_ids_of(addrs).is_empty(),
        !peer_ids_of(addrs).contains(peer),
    ensures
        !s.insert(authority, addrs).authorities.contains_key(peer),
{
    assert(s.peers_of(authority).contains(peer));
    assert(s.authorities[peer].remove(authority) =~= Set::<Seq<u8>>::empty());
}

/// Retaining keeps a consistent state consistent.
pub proof fn lemma_retain_consistent(s: CacheView, keep: Set<Seq<u8>>)
    requires
        s.consistent(),
    ensures
        s.retain(keep).consistent(),
{
    let t = s.retain(keep);
    assert forall|a: Seq<u8>, p: Seq<u8>|
        #![trigger t.peers_of(a).contains(p)]
        #![trigger t.authorities[p].contains(a)]
        t.peers_of(a).contains(p) <==> t.authorities.contains_key(p)
            && t.authorities[p].contains(a) by {
        assert(s.peers_of(a).contains(p) <==> s.authorities.contains_key(p)
            && s.authorities[p].contains(a));
        if s.authorities.contains_key(p) && s.authorities[p].contains(a) && keep.contains(a) {
            assert(s.authorities[p].intersect(keep).contains(a));
        }
    }
}

/// Retaining drops every authority outside the kept set, and leaves the
/// addresses of every authority inside it as they were.
pub proof fn lemma_retain_addresses(s: CacheView, keep: Set<Seq<u8>>, authority: Seq<u8>)
    ensures
        !keep.contains(authority) ==> !s.retain(keep).addresses.contains_key(authority),
        keep.contains(authority) ==> s.retain(keep).addresses.contains_key(authority)
            == s.addresses.contains_key(authority),
        keep.contains(authority) && s.addresses.contains_key(authority) ==> s.retain(
            keep,
        ).addresses[authority] == s.addresses[authority],
{
}

/// Pruning on retain: a peer none of whose authorities is kept is gone.
pub proof fn lemma_retain_prunes(s: CacheView, keep: Set<Seq<u8>>, peer: Seq<u8>)
    requires
        s.authorities.contains_key(peer),
        s.authorities[peer].disjoint(keep),
    ensures
        !s.retain(keep).authorities.contains_key(peer),
{
    assert(s.authorities[peer].intersect(keep) =~= Set::<Seq<u8>>::empty());
}

/// Retaining every authority changes nothing.
pub proof fn lemma_retain_all(s: CacheView)
    requires
        s.consistent(),
    ensures
        s.retain(Set::<Seq<u8>>::empty().complement()) == s,
{
    let all = Set::<Seq<u8>>::empty().complement();
    let r = s.retain(all);
    assert(r.addresses =~= s.addresses);
    assert forall|p: Seq<u8>| #[trigger]
        s.authorities.contains_key(p) implies s.authorities[p].intersect(all)
        == s.authorities[p] by {
        assert(s.authorities[p].intersect(all) =~= s.authorities[p]);
    }
    assert(r.authorities =~= s.authorities);
}

/// Dropping one authority is retaining all the others.
pub proof fn lemma_forget_is_retain(s: CacheView, authority: Seq<u8>)
    requires
        s.consistent(),
    ensures
        s.forget(authority) == s.retain(set![authority].complement()),
{
    let keep = set![authority].complement();
    let f = s.forget(authority);
    let r = s.retain(keep);
    assert(f.addresses =~= r.addresses);
    assert forall|p: Seq<u8>| #[trigger]
        s.authorities.contains_key(p) implies s.authorities[p].intersect(keep)
        == s.authorities[p].remove(authority) && (!s.peers_of(authority).contains(p)
        ==> s.authorities[p].remove(authority) == s.authorities[p]) by {
        assert(s.authorities[p].intersect(keep) =~= s.authorities[p].remove(authority));
        if !s.peers_of(authority).contains(p) {
            // The authority is named only under the peers it leads to.
            assert(!s.authorities[p].contains(authority));
            assert(s.authorities[p].remove(authority) =~= s.authorities[p]);
        }
    }
    assert(f.authorities =~= r.authorities);
}

/// Retaining twice is retaining what both sets keep.
pub proof fn lemma_retain_twice(s: CacheView, first: Set<Seq<u8>>, second: Set<Seq<u8>>)
    ensures
        s.retain(first).retain(second) == s.retain(first.intersect(second)),
{
    let a = s.retain(first).retain(second);
    let b = s.retain(first.intersect(second));
    assert(a.addresses =~= b.addresses);
    assert forall|p: Seq<u8>| #[trigger]
        s.authorities.contains_key(p) implies s.authorities[p].intersect(first).intersect(second)
        == s.authorities[p].intersect(first.intersect(second)) by {
        assert(s.authorities[p].intersect(first).intersect(second) =~= s.authorities[p].intersect(
            first.intersect(second),
        ));
    }
    assert forall|p: Seq<u8>| b.authorities.contains_key(p) implies a.authorities.contains_key(
        p,
    ) by {
        let w = choose|w: Seq<u8>| s.authorities[p].intersect(first.intersect(second)).contains(w);
        assert(s.authorities[p].intersect(first).contains(w));
    }
    assert(a.authorities =~= b.authorities);
}

/// What retaining does depends only on which of the held authorities are
/// kept.
pub proof fn lemma_retain_agree(s: CacheView, first: Set<Seq<u8>>, second: Set<Seq<u8>>)
    requires
        s.consistent(),
        forall|a: Seq<u8>| #[trigger]
            s.addresses.contains_key(a) ==> (first.contains(a) <==> second.contains(a)),
    ensures
        s.retain(first) == s.retain(second),
{
    let a = s.retain(first);
    let b = s.retain(second);
    assert(a.addresses =~= b.addresses);
    assert forall|p: Seq<u8>| #[trigger]
        s.authorities.contains_key(p) implies s.authorities[p].intersect(first)
        == s.authorities[p].intersect(second) by {
        assert forall|x: Seq<u8>| s.authorities[p].contains(x) implies (first.contains(x)
            <==> second.contains(x)) by {
            // Whoever is named under a peer is held with addresses.
            assert(s.peers_of(x).contains(p));
        }
        assert(s.authorities[p].intersect(first) =~= s.authorities[p].intersect(second));
    }
    assert(a.authorities =~= b.authorities);
}

} // verus!
