use addr_cache::id_map::IdMap;
use addr_cache::ident::{bytes_duplicate, bytes_same, Ident};
use addr_cache::peer_index::PeerIndex;
use addr_cache::{AuthorityId, IdSet, Multiaddr, PeerId, Protocol};

fn authority(tag: u8) -> AuthorityId {
    AuthorityId::new(vec![tag; 4])
}

fn peer(tag: u8) -> PeerId {
    let mut bytes = vec![0x12, 0x20];
    bytes.extend(std::iter::repeat(tag).take(32));
    PeerId::from_bytes(&bytes).unwrap()
}

fn peers(tags: &[u8]) -> IdSet<PeerId> {
    IdSet::from_vec(tags.iter().map(|t| peer(*t)).collect())
}

#[test]
fn bytes_are_compared_by_content() {
    assert!(bytes_same(&vec![1, 2, 3], &vec![1, 2, 3]));
    assert!(bytes_same(&Vec::new(), &Vec::new()));
    assert!(!bytes_same(&vec![1, 2, 3], &vec![1, 2, 4]));
    assert!(!bytes_same(&vec![1, 2, 3], &vec![1, 2]));
    assert!(!bytes_same(&vec![1, 2], &vec![1, 2, 3]));
    assert_eq!(bytes_duplicate(&vec![9, 8, 7]), vec![9, 8, 7]);
    assert_eq!(bytes_duplicate(&Vec::new()), Vec::<u8>::new());
}

#[test]
fn identifiers_are_compared_by_value() {
    assert!(authority(1).same(&authority(1)));
    assert!(!authority(1).same(&authority(2)));
    assert_eq!(authority(3).duplicate(), authority(3));
    assert_eq!(authority(3).as_bytes(), &vec![3u8; 4]);
    assert!(peer(1).same(&peer(1)));
    assert!(!peer(1).same(&peer(2)));
    assert_eq!(peer(2).duplicate(), peer(2));
}

#[test]
fn addresses_are_compared_layer_by_layer() {
    let a = Multiaddr::new(vec![Protocol::Other(vec![1]), Protocol::P2p(vec![2])]);
    let same = Multiaddr::new(vec![Protocol::Other(vec![1]), Protocol::P2p(vec![2])]);
    let other_kind = Multiaddr::new(vec![Protocol::Other(vec![1]), Protocol::Other(vec![2])]);
    let other_bytes = Multiaddr::new(vec![Protocol::Other(vec![1]), Protocol::P2p(vec![3])]);
    let shorter = Multiaddr::new(vec![Protocol::Other(vec![1])]);
    assert!(a.same(&same));
    assert!(!a.same(&other_kind));
    assert!(!a.same(&other_bytes));
    assert!(!a.same(&shorter));
    assert!(!shorter.same(&a));
    assert_eq!(a.duplicate(), a);
    assert!(Protocol::P2p(vec![1]).same(&Protocol::P2p(vec![1])));
    assert!(!Protocol::P2p(vec![1]).same(&Protocol::Other(vec![1])));
    assert_eq!(Protocol::Other(vec![5]).duplicate(), Protocol::Other(vec![5]));
}

#[test]
fn set_holds_each_value_once() {
    let mut set: IdSet<AuthorityId> = IdSet::new();
    assert!(set.is_empty());
    assert_eq!(set.len(), 0);
    assert!(set.insert(authority(1)));
    assert!(!set.insert(authority(1)));
    assert!(set.insert(authority(2)));
    assert_eq!(set.len(), 2);
    assert!(!set.is_empty());
    assert!(set.contains(&authority(1)));
    assert!(!set.contains(&authority(3)));
    assert!(set.remove(&authority(1)));
    assert!(!set.remove(&authority(1)));
    assert!(!set.contains(&authority(1)));
    assert!(set.contains(&authority(2)));
    assert_eq!(set.len(), 1);
    assert_eq!(set.as_slice(), &[authority(2)]);
}

#[test]
fn set_from_values_with_repeats() {
    let set = IdSet::from_vec(vec![authority(1), authority(2), authority(1), authority(1)]);
    assert_eq!(set.len(), 2);
    assert!(set.contains(&authority(1)) && set.contains(&authority(2)));
    let same = IdSet::from_slice(&[authority(2), authority(1), authority(2)]);
    assert_eq!(same.len(), 2);
    assert!(same.contains(&authority(1)) && same.contains(&authority(2)));
    assert!(IdSet::<AuthorityId>::from_vec(Vec::new()).is_empty());
}

#[test]
fn set_difference_and_copy() {
    let a = IdSet::from_vec(vec![authority(1), authority(2), authority(3)]);
    let b = IdSet::from_vec(vec![authority(2), authority(4)]);
    let d = a.difference(&b);
    assert_eq!(d.len(), 2);
    assert!(d.contains(&authority(1)) && d.contains(&authority(3)));
    assert!(!d.contains(&authority(2)));
    assert!(b.difference(&a).contains(&authority(4)));
    assert_eq!(b.difference(&a).len(), 1);
    assert!(a.difference(&a).is_empty());
    let copy = a.duplicate();
    assert_eq!(copy.len(), 3);
    assert!(copy.difference(&a).is_empty());
}

#[test]
fn map_holds_one_value_per_key() {
    let mut map: IdMap<AuthorityId, u32> = IdMap::new();
    assert_eq!(map.len(), 0);
    assert_eq!(map.insert(authority(1), 10), None);
    assert_eq!(map.insert(authority(2), 20), None);
    assert_eq!(map.insert(authority(1), 11), Some(10));
    assert_eq!(map.len(), 2);
    assert_eq!(map.get(&authority(1)), Some(&11));
    assert_eq!(map.get(&authority(2)), Some(&20));
    assert_eq!(map.get(&authority(3)), None);
    assert!(map.contains_key(&authority(2)));
    assert!(!map.contains_key(&authority(3)));
    let keys = IdSet::from_vec(map.keys());
    assert_eq!(map.keys().len(), 2);
    assert!(keys.contains(&authority(1)) && keys.contains(&authority(2)));
    assert_eq!(map.remove(&authority(1)), Some(11));
    assert_eq!(map.remove(&authority(1)), None);
    assert_eq!(map.len(), 1);
    assert_eq!(map.get(&authority(1)), None);
    assert_eq!(map.get(&authority(2)), Some(&20));
}

#[test]
fn index_adds_under_each_peer() {
    let mut index = PeerIndex::new();
    assert!(index.get(&peer(1)).is_none());
    index.add_authority_id_to_peer_ids(&authority(1), &peers(&[1, 2]));
    index.add_authority_id_to_peer_ids(&authority(2), &peers(&[2]));
    index.add_authority_id_to_peer_ids(&authority(2), &peers(&[]));
    let under1 = index.get(&peer(1)).unwrap();
    assert_eq!(under1.len(), 1);
    assert!(under1.contains(&authority(1)));
    let under2 = index.get(&peer(2)).unwrap();
    assert_eq!(under2.len(), 2);
    assert!(under2.contains(&authority(1)) && under2.contains(&authority(2)));
    assert!(index.get(&peer(3)).is_none());
}

#[test]
fn index_removes_and_prunes() {
    let mut index = PeerIndex::new();
    index.add_authority_id_to_peer_ids(&authority(1), &peers(&[1, 2]));
    index.add_authority_id_to_peer_ids(&authority(2), &peers(&[2]));
    // Peer 3 is not held, and authority 1 is not under it: nothing to do there.
    index.remove_authority_id_from_peer_ids(&authority(1), &peers(&[1, 2, 3]));
    assert!(index.get(&peer(1)).is_none());
    let under2 = index.get(&peer(2)).unwrap();
    assert_eq!(under2.len(), 1);
    assert!(under2.contains(&authority(2)));
    // An authority that is not under the peer leaves the entry as it is.
    index.remove_authority_id_from_peer_ids(&authority(9), &peers(&[2]));
    assert_eq!(index.get(&peer(2)).unwrap().len(), 1);
    index.remove_authority_id_from_peer_ids(&authority(2), &peers(&[2]));
    assert!(index.get(&peer(2)).is_none());
}
