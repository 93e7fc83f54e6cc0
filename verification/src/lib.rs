//! Peer identities, transport addresses and routing decisions of a peer-to-peer
//! node, with the behaviour of every function stated and proved.

pub mod address;
pub mod address_text;
pub mod authority;
pub mod bootstrap;
pub mod client_routing;
pub mod codec;
pub mod concurrent;
pub mod dht_lookup;
pub mod identity;
pub mod keys;
pub mod lookup_laws;
pub mod lookup_run;
pub mod octets;
pub mod peer_id;
pub mod peer_record;
pub mod probe;
pub mod projection;
pub mod publication_laws;
pub mod reachability;
pub mod record_bundle;
pub mod record_laws;
pub mod round_laws;
pub mod routing_laws;
pub mod run_laws;
pub mod selection_laws;
pub mod signed_address;
pub mod table;
pub mod text;
pub mod transcript_laws;
pub mod transport;
pub mod transport_address;
pub mod walk_laws;
