//! The reverse direction of the index: for each peer identity, the
//! authorities reachable through it.

use vstd::prelude::*;
use crate::ident::{AuthorityId, Ident};
use crate::id_map::IdMap;
use crate::id_set::{lemma_values_ends, lemma_values_step, values, IdSet};
use crate::peer_id::PeerId;

verus! {

/// The index after `authority` has been added under every peer of `peers`.
/// A peer without an entry gets one.
pub open spec fn linked(
    index: Map<Seq<u8>, Set<Seq<u8>>>,
    authority: Seq<u8>,
    peers: Set<Seq<u8>>,
) -> Map<Seq<u8>, Set<Seq<u8>>> {
    Map::new(
        |p: Seq<u8>| index.contains_key(p) || peers.contains(p),
        |p: Seq<u8>|
            if peers.contains(p) {
                (if index.contains_key(p) {
                    index[p]
                } else {
                    Set::empty()
                }).insert(authority)
            } else {
                index[p]
            },
    )
}

/// The index after `authority` has been taken out from under every peer of
/// `peers`. An entry of such a peer that is left without authorities is gone.
pub open spec fn unlinked(
    index: Map<Seq<u8>, Set<Seq<u8>>>,
    authority: Seq<u8>,
    peers: Set<Seq<u8>>,
) -> Map<Seq<u8>, Set<Seq<u8>>> {
    Map::new(
        |p: Seq<u8>|
            index.contains_key(p) && !(peers.contains(p) && index[p].remove(authority).is_empty()),
        |p: Seq<u8>|
            if peers.contains(p) {
                index[p].remove(authority)
            } else {
                index[p]
            },
    )
}

/// Whether every entry of the index names at least one authority.
pub open spec fn no_empty_entry(index: Map<Seq<u8>, Set<Seq<u8>>>) -> bool {
    forall|p: Seq<u8>| #[trigger] index.contains_key(p) ==> !index[p].is_empty()
}

/// Adding under no peer changes nothing.
pub proof fn lemma_linked_none(index: Map<Seq<u8>, Set<Seq<u8>>>, authority: Seq<u8>)
    ensures
        linked(index, authority, Set::empty()) == index,
{
    assert(linked(index, authority, Set::empty()) =~= index);
}

/// Adding under one more peer is one more step of the same kind.
pub proof fn lemma_linked_step(
    index: Map<Seq<u8>, Set<Seq<u8>>>,
    authority: Seq<u8>,
    peers: Set<Seq<u8>>,
    peer: Seq<u8>,
)
    ensures
        linked(linked(index, authority, peers), authority, set![peer]) == linked(
            index,
            authority,
            peers.insert(peer),
        ),
{
    let a = linked(linked(index, authority, peers), authority, set![peer]);
    let b = linked(index, authority, peers.insert(peer));
    assert forall|p: Seq<u8>| #[trigger] a.contains_key(p) implies a[p] =~= b[p] by {}
}

/// Adding leaves no entry empty.
pub proof fn lemma_linked_no_empty_entry(
    index: Map<Seq<u8>, Set<Seq<u8>>>,
    authority: Seq<u8>,
    peers: Set<Seq<u8>>,
)
    requires
        no_empty_entry(index),
    ensures
        no_empty_entry(linked(index, authority, peers)),
{
    let l = linked(index, authority, peers);
    assert forall|p: Seq<u8>| #[trigger] l.contains_key(p) implies !l[p].is_empty() by {
        if peers.contains(p) {
            assert(l[p].contains(authority));
        } else {
            assert(index.contains_key(p));
        }
    }
}

/// Removing under no peer changes nothing.
pub proof fn lemma_unlinked_none(index: Map<Seq<u8>, Set<Seq<u8>>>, authority: Seq<u8>)
    ensures
        unlinked(index, authority, Set::empty()) == index,
{
    assert(unlinked(index, authority, Set::empty()) =~= index);
}

/// Removing under one more peer is one more step of the same kind.
pub proof fn lemma_unlinked_step(
    index: Map<Seq<u8>, Set<Seq<u8>>>,
    authority: Seq<u8>,
    peers: Set<Seq<u8>>,
    peer: Seq<u8>,
)
    ensures
        unlinked(unlinked(index, authority, peers), authority, set![peer]) == unlinked(
            index,
            authority,
            peers.insert(peer),
        ),
{
    let a = unlinked(unlinked(index, authority, peers), authority, set![peer]);
    let b = unlinked(index, authority, peers.insert(peer));
    assert forall|p: Seq<u8>| a.contains_key(p) <==> b.contains_key(p) by {
        if index.contains_key(p) {
            assert(index[p].remove(authority).remove(authority) =~= index[p].remove(authority));
        }
    }
    assert forall|p: Seq<u8>| #[trigger] a.contains_key(p) implies a[p] =~= b[p] by {}
}

/// Removing leaves no entry empty.
pub proof fn lemma_unlinked_no_empty_entry(
    index: Map<Seq<u8>, Set<Seq<u8>>>,
    authority: Seq<u8>,
    peers: Set<Seq<u8>>,
)
    requires
        no_empty_entry(index),
    ensures
        no_empty_entry(unlinked(index, authority, peers)),
{
    let u = unlinked(index, authority, peers);
    assert forall|p: Seq<u8>| #[trigger] u.contains_key(p) implies !u[p].is_empty() by {
        assert(index.contains_key(p));
    }
}

/// For each peer identity the set of authorities reachable through it. No
/// peer is held with an empty set.
pub struct PeerIndex {
    map: IdMap<PeerId, IdSet<AuthorityId>>,
}

/// The index that a map of sets stands for.
spec fn index_of(map: Map<Seq<u8>, IdSet<AuthorityId>>) -> Map<Seq<u8>, Set<Seq<u8>>> {
    Map::new(|p: Seq<u8>| map.contains_key(p), |p: Seq<u8>| map[p]@)
}

impl View for PeerIndex {
    type V = Map<Seq<u8>, Set<Seq<u8>>>;

    closed spec fn view(&self) -> Map<Seq<u8>, Set<Seq<u8>>> {
        index_of(self.map@)
    }
}

impl PeerIndex {
    #[verifier::type_invariant]
    spec fn pruned(self) -> bool {
        no_empty_entry(index_of(self.map@))
    }

    /// The index without any peer.
    pub fn new() -> (r: Self)
        ensures
            r@ == Map::<Seq<u8>, Set<Seq<u8>>>::empty(),
    {
        let map: IdMap<PeerId, IdSet<AuthorityId>> = IdMap::new();
        PeerIndex { map }
    }

    /// The authorities reachable through `peer_id`, if there is any.
    pub fn get(&self, peer_id: &PeerId) -> (r: Option<&IdSet<AuthorityId>>)
        ensures
            no_empty_entry(self@),
            match r {
                Some(set) => self@.contains_key(peer_id@) && set@ == self@[peer_id@],
                None => !self@.contains_key(peer_id@),
            },
    {
        proof {
            use_type_invariant(self);
        }
        self.map.get(peer_id)
    }

    /// Adds `authority_id` under each peer of `peer_ids`.
    pub fn add_authority_id_to_peer_ids(
        &mut self,
        authority_id: &AuthorityId,
        peer_ids: &IdSet<PeerId>,
    )
        ensures
            final(self)@ == linked(old(self)@, authority_id@, peer_ids@),
    {
        proof {
            use_type_invariant(&*self);
        }
        let mut map: IdMap<PeerId, IdSet<AuthorityId>> = IdMap::new();
        std::mem::swap(&mut map, &mut self.map);
        let ghost start = index_of(map@);
        let peers = peer_ids.as_slice();
        let mut i: usize = 0;
        proof {
            lemma_values_ends(peers@);
            lemma_linked_none(start, authority_id@);
        }
        while i < peers.len()
            invariant
                i <= peers.len(),
                no_empty_entry(start),
                index_of(map@) == linked(
                    start,
                    authority_id@,
                    values(peers@.take(i as int)).to_set(),
                ),
            decreases peers.len() - i,
        {
            let ghost before = index_of(map@);
            let ghost done = values(peers@.take(i as int)).to_set();
            let peer = &peers[i];
            let mut set = match map.remove(peer) {
                Some(held) => held,
                None => IdSet::new(),
            };
            set.insert(authority_id.duplicate());
            map.insert(peer.duplicate(), set);
            proof {
                lemma_values_step(peers@, i as int);
                lemma_linked_step(start, authority_id@, done, peer@);
                let step = linked(before, authority_id@, set![peer@]);
                assert forall|p: Seq<u8>| #[trigger]
                    index_of(map@).contains_key(p) implies index_of(map@)[p] =~= step[p] by {}
            }
            i += 1;
        }
        proof {
            lemma_values_ends(peers@);
            lemma_linked_no_empty_entry(start, authority_id@, peer_ids@);
        }
        self.map = map;
    }

    /// Removes `authority_id` from under each peer of `peer_ids`. A peer
    /// that is left without any authority is removed with it.
    pub fn remove_authority_id_from_peer_ids(
        &mut self,
        authority_id: &AuthorityId,
        peer_ids: &IdSet<PeerId>,
    )
        ensures
            final(self)@ == unlinked(old(self)@, authority_id@, peer_ids@),
    {
        proof {
            use_type_invariant(&*self);
        }
        let mut map: IdMap<PeerId, IdSet<AuthorityId>> = IdMap::new();
        std::mem::swap(&mut map, &mut self.map);
        let ghost start = index_of(map@);
        let peers = peer_ids.as_slice();
        let mut i: usize = 0;
        proof {
            lemma_values_ends(peers@);
            lemma_unlinked_none(start, authority_id@);
        }
        while i < peers.len()
            invariant
                i <= peers.len(),
                no_empty_entry(start),
                index_of(map@) == unlinked(
                    start,
                    authority_id@,
                    values(peers@.take(i as int)).to_set(),
                ),
            decreases peers.len() - i,
        {
            let ghost before = index_of(map@);
            let ghost done = values(peers@.take(i as int)).to_set();
            let peer = &peers[i];
            match map.remove(peer) {
                Some(held) => {
                    let mut set = held;
                    set.remove(authority_id);
                    // With no authority left, the peer leaves the index.
                    if !set.is_empty() {
                        map.insert(peer.duplicate(), set);
                    }
                },
                None => {},
            }
            proof {
                lemma_values_step(peers@, i as int);
                lemma_unlinked_step(start, authority_id@, done, peer@);
                let step = unlinked(before, authority_id@, set![peer@]);
                assert forall|p: Seq<u8>| #[trigger]
                    index_of(map@).contains_key(p) implies index_of(map@)[p] =~= step[p] by {}
            }
            i += 1;
        }
        proof {
            lemma_values_ends(peers@);
            lemma_unlinked_no_empty_entry(start, authority_id@, peer_ids@);
        }
        self.map = map;
    }
}

} // verus!
