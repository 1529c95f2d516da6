//! The address cache: both directions of the index behind one type.

use vstd::prelude::*;
use crate::ident::{AuthorityId, Ident};
use crate::id_map::IdMap;
use crate::id_set::{lemma_values_ends, lemma_values_step, values, IdSet};
use crate::multiaddr::{addresses_to_peer_ids, peer_ids_of, Multiaddr, ProtocolView};
use crate::peer_id::PeerId;
use crate::peer_index::{lemma_unlinked_none, PeerIndex};
use crate::state::{
    lemma_forget_is_retain, lemma_insert_consistent, lemma_retain_agree, lemma_retain_all,
    lemma_retain_consistent, lemma_retain_twice, CacheView,
};

verus! {

/// What an insert made of the addresses it was given.
#[derive(Clone, Copy, Debug, PartialEq, Eq)]
pub enum InsertOutcome {
    /// The addresses lead to one peer identity and were stored.
    Stored,
    /// The addresses lead to more than one peer identity. They were stored
    /// all the same.
    Ambiguous,
    /// The addresses lead to no peer identity. Nothing was changed.
    Unusable,
}

/// The outcome of an insert whose addresses lead to the peer identities
/// `peers`.
pub open spec fn insert_outcome(peers: Set<Seq<u8>>) -> InsertOutcome {
    if peers.is_empty() {
        InsertOutcome::Unusable
    } else if peers.len() > 1 {
        InsertOutcome::Ambiguous
    } else {
        InsertOutcome::Stored
    }
}

/// Cache for the mappings from authority to addresses and from peer identity
/// to authorities.
///
/// The addresses held for the authorities always match the peer identities
/// held in the other direction. Since the mapping may be kept across several
/// sessions, one peer identity may stand for several authorities; one
/// authority is not expected to have several peer identities.
pub struct AddrCache {
    authority_id_to_addresses: IdMap<AuthorityId, IdSet<Multiaddr>>,
    peer_id_to_authority_ids: PeerIndex,
}

/// The forward direction that a map of address sets stands for.
spec fn forward_of(map: Map<Seq<u8>, IdSet<Multiaddr>>) -> Map<Seq<u8>, Set<Seq<ProtocolView>>> {
    Map::new(|a: Seq<u8>| map.contains_key(a), |a: Seq<u8>| map[a]@)
}

/// The state that the two halves of a cache stand for.
spec fn state_of(forward: IdMap<AuthorityId, IdSet<Multiaddr>>, reverse: PeerIndex) -> CacheView {
    CacheView { addresses: forward_of(forward@), authorities: reverse@ }
}

impl View for AddrCache {
    type V = CacheView;

    closed spec fn view(&self) -> CacheView {
        state_of(self.authority_id_to_addresses, self.peer_id_to_authority_ids)
    }
}

impl AddrCache {
    #[verifier::type_invariant]
    spec fn coupled(self) -> bool {
        self@.consistent()
    }

    /// The cache without any authority.
    pub fn new() -> (r: Self)
        ensures
            r@ == CacheView::empty(),
            r@.consistent(),
    {
        let forward: IdMap<AuthorityId, IdSet<Multiaddr>> = IdMap::new();
        let reverse = PeerIndex::new();
        assert(forward_of(forward@) =~= Map::<Seq<u8>, Set<Seq<ProtocolView>>>::empty());
        AddrCache { authority_id_to_addresses: forward, peer_id_to_authority_ids: reverse }
    }

    /// Stores `addresses` as the addresses of `authority_id`, for lookups by
    /// authority or by peer identity.
    ///
    /// The addresses are taken as a set. If none of them leads to a peer
    /// identity, nothing changes. Otherwise they replace the addresses held
    /// for the authority, and the authority is moved to the peers that the
    /// new addresses lead to.
    pub fn insert(&mut self, authority_id: AuthorityId, addresses: Vec<Multiaddr>) -> (outcome:
        InsertOutcome)
        ensures
            final(self)@ == old(self)@.insert(authority_id@, values(addresses@).to_set()),
            final(self)@.consistent(),
            outcome == insert_outcome(peer_ids_of(values(addresses@).to_set())),
    {
        proof {
            use_type_invariant(&*self);
        }
        let ghost start = self@;
        let addresses = IdSet::from_vec(addresses);
        let peer_ids = addresses_to_peer_ids(&addresses);

        if peer_ids.is_empty() {
            return InsertOutcome::Unusable;
        }
        let outcome = if peer_ids.len() > 1 {
            InsertOutcome::Ambiguous
        } else {
            InsertOutcome::Stored
        };

        let mut taken = AddrCache::new();
        std::mem::swap(self, &mut taken);
        let AddrCache { authority_id_to_addresses: mut forward, peer_id_to_authority_ids: mut reverse } =
            taken;

        let old_addresses = forward.insert(authority_id.duplicate(), addresses);
        let old_peer_ids = match old_addresses {
            Some(held) => addresses_to_peer_ids(&held),
            None => IdSet::new(),
        };

        // Add the new peer ids
        reverse.add_authority_id_to_peer_ids(&authority_id, &peer_ids.difference(&old_peer_ids));

        // Remove the old peer ids
        reverse.remove_authority_id_from_peer_ids(
            &authority_id,
            &old_peer_ids.difference(&peer_ids),
        );

        proof {
            // Both halves now hold what the insert is to leave, and that
            // state is consistent again.
            let end = state_of(forward, reverse);
            assert(end.addresses =~= start.insert(authority_id@, addresses@).addresses);
            lemma_insert_consistent(start, authority_id@, addresses@);
        }
        *self = AddrCache { authority_id_to_addresses: forward, peer_id_to_authority_ids: reverse };
        outcome
    }

    /// The number of authorities in the cache.
    pub fn num_authority_ids(&self) -> (n: usize)
        ensures
            self@.addresses.dom().finite(),
            n == self@.addresses.dom().len(),
    {
        let n = self.authority_id_to_addresses.len();
        proof {
            assert(self@.addresses.dom() =~= self.authority_id_to_addresses@.dom());
        }
        n
    }

    /// The addresses held for `authority_id`, if it is in the cache.
    pub fn get_addresses_by_authority_id(&self, authority_id: &AuthorityId) -> (r: Option<
        &IdSet<Multiaddr>,
    >)
        ensures
            self@.consistent(),
            match r {
                Some(addresses) => self@.addresses.contains_key(authority_id@) && addresses@
                    == self@.addresses[authority_id@],
                None => !self@.addresses.contains_key(authority_id@),
            },
    {
        proof {
            use_type_invariant(self);
        }
        self.authority_id_to_addresses.get(authority_id)
    }

    /// The authorities reachable through `peer_id`, if there is any.
    ///
    /// As authorities change between sessions, one peer identity can stand
    /// for several of them. The set returned is never empty.
    pub fn get_authority_ids_by_peer_id(&self, peer_id: &PeerId) -> (r: Option<
        &IdSet<AuthorityId>,
    >)
        ensures
            self@.consistent(),
            match r {
                Some(authorities) => self@.authorities.contains_key(peer_id@) && authorities@
                    == self@.authorities[peer_id@] && !authorities@.is_empty(),
                None => !self@.authorities.contains_key(peer_id@),
            },
    {
        proof {
            use_type_invariant(self);
        }
        self.peer_id_to_authority_ids.get(peer_id)
    }

    /// Removes from the cache every authority that is not among
    /// `authority_ids`, with its addresses and its place under each peer.
    pub fn retain_ids(&mut self, authority_ids: &[AuthorityId])
        ensures
            final(self)@ == old(self)@.retain(values(authority_ids@).to_set()),
            final(self)@.consistent(),
    {
        proof {
            use_type_invariant(&*self);
        }
        let ghost start = self@;
        let ghost keep = values(authority_ids@).to_set();
        let mut taken = AddrCache::new();
        std::mem::swap(self, &mut taken);
        let AddrCache { authority_id_to_addresses: mut forward, peer_id_to_authority_ids: mut reverse } =
            taken;

        let held = IdSet::from_vec(forward.keys());
        let kept = IdSet::from_slice(authority_ids);
        let authority_ids_to_remove = held.difference(&kept);
        let leaving = authority_ids_to_remove.as_slice();

        let mut i: usize = 0;
        proof {
            lemma_values_ends(leaving@);
            lemma_retain_all(start);
        }
        while i < leaving.len()
            invariant
                i <= leaving.len(),
                start.consistent(),
                state_of(forward, reverse) == start.retain(
                    values(leaving@.take(i as int)).to_set().complement(),
                ),
            decreases leaving.len() - i,
        {
            let ghost gone = values(leaving@.take(i as int)).to_set();
            let ghost now = state_of(forward, reverse);
            let authority_id_to_remove = &leaving[i];
            proof {
                // Dropping one more authority is retaining all but those
                // dropped so far and that one.
                lemma_retain_consistent(start, gone.complement());
                lemma_forget_is_retain(now, authority_id_to_remove@);
                lemma_retain_twice(
                    start,
                    gone.complement(),
                    set![authority_id_to_remove@].complement(),
                );
                lemma_values_step(leaving@, i as int);
                assert(gone.complement().intersect(set![authority_id_to_remove@].complement())
                    =~= gone.insert(authority_id_to_remove@).complement());
                lemma_unlinked_none(now.authorities, authority_id_to_remove@);
            }
            // Remove the authority's addresses, then its place under each peer.
            match forward.remove(authority_id_to_remove) {
                Some(addresses) => {
                    reverse.remove_authority_id_from_peer_ids(
                        authority_id_to_remove,
                        &addresses_to_peer_ids(&addresses),
                    );
                },
                None => {},
            }
            proof {
                let next = state_of(forward, reverse);
                assert(next.addresses =~= now.forget(authority_id_to_remove@).addresses);
            }
            i += 1;
        }
        proof {
            lemma_values_ends(leaving@);
            lemma_retain_agree(start, values(leaving@).to_set().complement(), keep);
            lemma_retain_consistent(start, keep);
        }
        *self = AddrCache { authority_id_to_addresses: forward, peer_id_to_authority_ids: reverse };
    }
}

} // verus!
