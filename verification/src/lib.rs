//! A bidirectional index between authority identities and the network
//! addresses at which they can be reached.
//!
//! The cache maps each authority to its set of addresses and each peer
//! identity derived from those addresses back to the authorities behind it.
//! Every operation keeps the two directions in step.

pub mod ident;
pub mod multiaddr;
pub mod peer_id;
pub mod id_set;
pub mod id_map;
pub mod peer_index;
pub mod state;
pub mod cache;

pub use cache::{AddrCache, InsertOutcome};
pub use id_set::IdSet;
pub use ident::AuthorityId;
pub use multiaddr::{Multiaddr, Protocol};
pub use peer_id::PeerId;
