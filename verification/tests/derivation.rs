use addr_cache::multiaddr::{addresses_to_peer_ids, peer_id_from_multiaddr};
use addr_cache::{AddrCache, AuthorityId, IdSet, InsertOutcome, Multiaddr, PeerId, Protocol};

fn sha256_hash(tag: u8) -> Vec<u8> {
    let mut bytes = vec![0x12, 0x20];
    bytes.extend(std::iter::repeat(tag).take(32));
    bytes
}

/// The address of the library that stands for an address of libp2p.
fn from_libp2p(addr: &libp2p::Multiaddr) -> Multiaddr {
    Multiaddr::new(
        addr.iter()
            .map(|layer| match layer {
                libp2p::multiaddr::Protocol::P2p(peer) => Protocol::P2p(peer.to_bytes()),
                other => Protocol::Other(libp2p::Multiaddr::from(other).to_vec()),
            })
            .collect(),
    )
}

#[test]
fn peer_id_decodes_a_sha256_multihash() {
    let bytes = sha256_hash(3);
    let peer = PeerId::from_bytes(&bytes).unwrap();
    assert_eq!(peer.to_bytes(), bytes);
    assert_eq!(peer.to_bytes(), libp2p::PeerId::from_bytes(&bytes).unwrap().to_bytes());
}

#[test]
fn peer_id_decodes_a_short_identity_multihash() {
    let bytes = vec![0x00, 0x04, 1, 2, 3, 4];
    assert_eq!(PeerId::from_bytes(&bytes).unwrap().to_bytes(), bytes);
}

#[test]
fn peer_id_rejects_what_libp2p_rejects() {
    // An identity multihash that is too long for a peer identity.
    let mut long_identity = vec![0x00, 43];
    long_identity.extend([1u8; 43]);
    // A hash function that peer identities do not use.
    let mut sha1 = vec![0x11, 0x14];
    sha1.extend([7u8; 20]);
    // A digest shorter than announced, and bytes after the digest.
    let truncated = vec![0x12, 0x20, 1, 2, 3];
    let mut trailing = sha256_hash(1);
    trailing.push(0);
    for bytes in [long_identity, sha1, truncated, trailing, Vec::new(), vec![0xff]] {
        assert!(libp2p::PeerId::from_bytes(&bytes).is_err());
        assert!(PeerId::from_bytes(&bytes).is_none());
    }
}

#[test]
fn equal_bytes_give_equal_peer_ids() {
    assert_eq!(PeerId::from_bytes(&sha256_hash(1)), PeerId::from_bytes(&sha256_hash(1)));
    assert_ne!(PeerId::from_bytes(&sha256_hash(1)), PeerId::from_bytes(&sha256_hash(2)));
}

#[test]
fn peer_id_comes_from_the_final_layer() {
    let hash = sha256_hash(1);
    let expected = PeerId::from_bytes(&hash);
    let ends_in_peer = Multiaddr::new(vec![Protocol::Other(vec![1]), Protocol::P2p(hash.clone())]);
    assert_eq!(peer_id_from_multiaddr(&ends_in_peer), expected);
    let only_peer = Multiaddr::new(vec![Protocol::P2p(hash.clone())]);
    assert_eq!(peer_id_from_multiaddr(&only_peer), expected);
    let two_peers =
        Multiaddr::new(vec![Protocol::P2p(sha256_hash(2)), Protocol::P2p(hash.clone())]);
    assert_eq!(peer_id_from_multiaddr(&two_peers), expected);
}

#[test]
fn peer_layer_before_the_end_is_not_looked_at() {
    let relayed = Multiaddr::new(vec![Protocol::P2p(sha256_hash(1)), Protocol::Other(vec![1])]);
    assert_eq!(peer_id_from_multiaddr(&relayed), None);
}

#[test]
fn address_without_layers_has_no_peer_id() {
    assert_eq!(peer_id_from_multiaddr(&Multiaddr::new(Vec::new())), None);
}

#[test]
fn undecodable_final_layer_has_no_peer_id() {
    let addr = Multiaddr::new(vec![Protocol::Other(vec![1]), Protocol::P2p(vec![0x12, 0x20, 1])]);
    assert_eq!(peer_id_from_multiaddr(&addr), None);
}

#[test]
fn peer_ids_of_a_set_of_addresses() {
    let addrs = IdSet::from_vec(vec![
        Multiaddr::new(vec![Protocol::Other(vec![1]), Protocol::P2p(sha256_hash(1))]),
        Multiaddr::new(vec![Protocol::Other(vec![2]), Protocol::P2p(sha256_hash(1))]),
        Multiaddr::new(vec![Protocol::Other(vec![3])]),
        Multiaddr::new(vec![Protocol::P2p(sha256_hash(2))]),
        Multiaddr::new(vec![Protocol::P2p(vec![0xff])]),
    ]);
    let peers = addresses_to_peer_ids(&addrs);
    assert_eq!(peers.len(), 2);
    assert!(peers.contains(&PeerId::from_bytes(&sha256_hash(1)).unwrap()));
    assert!(peers.contains(&PeerId::from_bytes(&sha256_hash(2)).unwrap()));
    assert!(addresses_to_peer_ids(&IdSet::new()).is_empty());
}

#[test]
fn protocols_are_returned_as_given() {
    let layers = vec![Protocol::Other(vec![4, 127, 0, 0, 1]), Protocol::P2p(sha256_hash(1))];
    let addr = Multiaddr::new(layers.clone());
    assert_eq!(addr.protocols(), &layers);
}

#[test]
fn libp2p_address_with_peer_is_found_by_that_peer() {
    let peer = libp2p::PeerId::random();
    let addr: libp2p::Multiaddr = "/ip4/127.0.0.1/tcp/30333".parse().unwrap();
    let addr = addr.with(libp2p::multiaddr::Protocol::P2p(peer));
    let authority = AuthorityId::new(vec![1; 32]);

    let mut cache = AddrCache::new();
    let outcome = cache.insert(authority.clone(), vec![from_libp2p(&addr)]);
    assert_eq!(outcome, InsertOutcome::Stored);

    let found = PeerId::from_bytes(&peer.to_bytes()).unwrap();
    let behind = cache.get_authority_ids_by_peer_id(&found).unwrap();
    assert_eq!(behind.len(), 1);
    assert!(behind.contains(&authority));
    let held = cache.get_addresses_by_authority_id(&authority).unwrap();
    assert!(held.contains(&from_libp2p(&addr)));
}

#[test]
fn libp2p_address_without_peer_is_turned_down() {
    let addr: libp2p::Multiaddr = "/ip6/2001:db8::/tcp/30333".parse().unwrap();
    let mut cache = AddrCache::new();
    let outcome = cache.insert(AuthorityId::new(vec![1; 32]), vec![from_libp2p(&addr)]);
    assert_eq!(outcome, InsertOutcome::Unusable);
    assert_eq!(cache.num_authority_ids(), 0);
}

#[test]
fn libp2p_relay_address_ends_in_no_peer() {
    let relay = libp2p::PeerId::random();
    let addr: libp2p::Multiaddr = "/ip4/10.0.0.1/tcp/1".parse().unwrap();
    let addr = addr
        .with(libp2p::multiaddr::Protocol::P2p(relay))
        .with(libp2p::multiaddr::Protocol::P2pCircuit);
    assert_eq!(peer_id_from_multiaddr(&from_libp2p(&addr)), None);
}
