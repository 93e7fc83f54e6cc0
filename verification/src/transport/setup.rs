//! How a transport is set up: where it listens, and what it starts with.

use crate::address::{IpAddr, MultiAddr, SocketAddr};
use crate::peer_id::PeerId;
use crate::transport::handle::{HandleView, TransportHandle};
use crate::transport::inbound::{HostedIdentities, HostingView};
use crate::transport::registry::RegistryView;
use vstd::prelude::*;

verus! {

/// How a node takes part in the network.
#[derive(Debug, Clone, Copy, PartialEq, Eq, Structural)]
pub enum NodeMode {
    /// It serves other peers.
    Node,
    /// It only reaches out.
    Client,
}

/// Configuration of a node, as far as the transport reads it.
pub struct NodeConfig {
    /// Addresses to listen on.
    pub listen_addrs: Vec<MultiAddr>,
    /// Timeout of dials and requests, in milliseconds.
    pub connection_timeout_millis: u64,
    /// Maximum concurrent connections.
    pub max_connections: usize,
    /// Maximum message size, where it is not the built-in one.
    pub max_message_size: Option<usize>,
    /// Software of the node.
    pub user_agent: String,
    /// Whether loopback addresses are allowed.
    pub allow_loopback: bool,
    /// How the node takes part in the network.
    pub mode: NodeMode,
}

/// Configuration of a transport.
pub struct TransportConfig {
    /// Addresses to bind on.
    pub listen_addrs: Vec<MultiAddr>,
    /// Timeout of dials and requests, in milliseconds.
    pub connection_timeout_millis: u64,
    /// Maximum concurrent connections.
    pub max_connections: usize,
    /// Capacity of the channel for events.
    pub event_channel_capacity: usize,
    /// Maximum message size, where it is not the built-in one.
    pub max_message_size: Option<usize>,
    /// Software of the node.
    pub user_agent: String,
    /// Whether loopback addresses are allowed.
    pub allow_loopback: bool,
    /// Whether the node relays for other peers.
    pub enable_relay_service: bool,
    /// Whether discovered external addresses are told to connected peers.
    pub advertise_external_addresses: bool,
}

impl TransportConfig {
    /// The configuration of a transport of a node. Only a node that is no client
    /// relays for others and tells its external addresses.
    pub open spec fn of_node(config: NodeConfig, event_channel_capacity: usize) -> TransportConfig {
        TransportConfig {
            listen_addrs: config.listen_addrs,
            connection_timeout_millis: config.connection_timeout_millis,
            max_connections: config.max_connections,
            event_channel_capacity,
            max_message_size: config.max_message_size,
            user_agent: config.user_agent,
            allow_loopback: config.allow_loopback,
            enable_relay_service: !(config.mode is Client),
            advertise_external_addresses: !(config.mode is Client),
        }
    }

    /// Build the configuration of a transport from that of its node.
    pub fn from_node_config(config: NodeConfig, event_channel_capacity: usize) -> (built: Self)
        ensures
            built == TransportConfig::of_node(config, event_channel_capacity),
    {
        let serves = config.mode != NodeMode::Client;
        TransportConfig {
            listen_addrs: config.listen_addrs,
            connection_timeout_millis: config.connection_timeout_millis,
            max_connections: config.max_connections,
            event_channel_capacity,
            max_message_size: config.max_message_size,
            user_agent: config.user_agent,
            allow_loopback: config.allow_loopback,
            enable_relay_service: serves,
            advertise_external_addresses: serves,
        }
    }
}

/// Whether an address is one of an IP version that can be bound.
pub open spec fn binds(address: MultiAddr, v4: bool) -> bool {
    address.dialable() matches Some(socket) && (socket.ip is V4) == v4
}

/// The first address of an IP version that can be bound.
pub open spec fn first_binding(addresses: Seq<MultiAddr>, v4: bool) -> Option<SocketAddr>
    decreases addresses.len(),
{
    if addresses.len() == 0 {
        None
    } else {
        match first_binding(addresses.drop_last(), v4) {
            Some(socket) => Some(socket),
            None => if binds(addresses.last(), v4) {
                addresses.last().dialable()
            } else {
                None
            },
        }
    }
}

/// Where to bind: the first IPv4 and the first IPv6 address of the list.
/// Addresses that are not spoken to over QUIC are skipped.
pub fn partition_listen_addresses(listen_addrs: &Vec<MultiAddr>) -> (bound: (
    Option<SocketAddr>,
    Option<SocketAddr>,
))
    ensures
        bound.0 == first_binding(listen_addrs@, true),
        bound.1 == first_binding(listen_addrs@, false),
{
    let mut v4: Option<SocketAddr> = None;
    let mut v6: Option<SocketAddr> = None;
    let mut index: usize = 0;
    while index < listen_addrs.len()
        invariant
            index <= listen_addrs@.len(),
            v4 == first_binding(listen_addrs@.take(index as int), true),
            v6 == first_binding(listen_addrs@.take(index as int), false),
        decreases listen_addrs@.len() - index,
    {
        proof {
            assert(listen_addrs@.take(index as int + 1).drop_last() =~= listen_addrs@.take(
                index as int,
            ));
        }
        if let Some(socket) = listen_addrs[index].dialable_socket_addr() {
            match socket.ip {
                IpAddr::V4(_) => {
                    if v4.is_none() {
                        v4 = Some(socket);
                    }
                },
                IpAddr::V6(_) => {
                    if v6.is_none() {
                        v6 = Some(socket);
                    }
                },
            }
        }
        index += 1;
    }
    assert(listen_addrs@.take(listen_addrs@.len() as int) =~= listen_addrs@);
    (v4, v6)
}

/// A transport that is about to start.
pub struct TransportPlan {
    /// Where to bind for IPv4.
    pub bind_v4: Option<SocketAddr>,
    /// Where to bind for IPv6.
    pub bind_v6: Option<SocketAddr>,
    /// Channels and peers.
    pub handle: TransportHandle,
    /// Identities that are served.
    pub hosting: HostedIdentities,
    /// Whether the transport carries messages between identities that share it.
    pub multiplexed: bool,
    /// Whether the node looks after the reachability of the transport.
    pub runs_reachability_driver: bool,
    /// Configuration.
    pub config: TransportConfig,
}

/// Plan a transport, with a shared transport beside it or without.
///
/// A transport of one identity serves that identity from the start, and its
/// node looks after its reachability. A transport that is shared serves none at
/// first, and the first identity that joins looks after its reachability.
pub fn plan_transport(
    config: TransportConfig,
    identity: PeerId,
    multiplexed: bool,
    has_shared: bool,
) -> (plan: TransportPlan)
    ensures
        plan.bind_v4 == first_binding(config.listen_addrs@, true),
        plan.bind_v6 == first_binding(config.listen_addrs@, false),
        plan.handle@ == (HandleView {
            own: RegistryView::empty(),
            shared: if has_shared {
                Some(RegistryView::empty())
            } else {
                None
            },
            counts: Map::empty(),
        }),
        plan.hosting@ == HostingView::initial(multiplexed, identity@, config.user_agent@),
        plan.multiplexed == multiplexed,
        plan.runs_reachability_driver == !multiplexed,
        plan.config == config,
{
    let (bind_v4, bind_v6) = partition_listen_addresses(&config.listen_addrs);
    let hosting = HostedIdentities::new(multiplexed, identity, config.user_agent.clone());
    TransportPlan {
        bind_v4,
        bind_v6,
        handle: TransportHandle::new(has_shared),
        hosting,
        multiplexed,
        runs_reachability_driver: !multiplexed,
        config,
    }
}

/// A transport binds the first QUIC address of each IP version, in the order
/// listed, and none of a version that has none.
pub proof fn law_the_first_address_is_bound(addresses: Seq<MultiAddr>, v4: bool)
    ensures
        first_binding(addresses, v4) is None <==> forall|i: int|
            0 <= i < addresses.len() ==> !((#[trigger] addresses[i]).transport is Quic) || (
            addresses[i].socket_addr.ip is V4) != v4,
        first_binding(addresses, v4) matches Some(socket) ==> exists|i: int|
            0 <= i < addresses.len() && (#[trigger] addresses[i]).transport is Quic
                && addresses[i].socket_addr == socket && (socket.ip is V4) == v4 && forall|j: int|
                0 <= j < i ==> !((#[trigger] addresses[j]).transport is Quic) || (
                addresses[j].socket_addr.ip is V4) != v4,
    decreases addresses.len(),
{
    if addresses.len() > 0 {
        let rest = addresses.drop_last();
        law_the_first_address_is_bound(rest, v4);
        assert forall|i: int| 0 <= i < rest.len() implies #[trigger] rest[i] == addresses[i] by {}
        if let Some(socket) = first_binding(rest, v4) {
            let i = choose|i: int|
                0 <= i < rest.len() && (#[trigger] rest[i]).transport is Quic
                    && rest[i].socket_addr == socket && (socket.ip is V4) == v4 && forall|j: int|
                    0 <= j < i ==> !((#[trigger] rest[j]).transport is Quic) || (
                    rest[j].socket_addr.ip is V4) != v4;
            assert(addresses[i] == rest[i]);
            assert forall|j: int| 0 <= j < i implies !((
            #[trigger] addresses[j]).transport is Quic) || (addresses[j].socket_addr.ip is V4)
                != v4 by {
                assert(rest[j] == addresses[j]);
            }
        } else {
            assert forall|j: int| 0 <= j < rest.len() implies !((
            #[trigger] addresses[j]).transport is Quic) || (addresses[j].socket_addr.ip is V4)
                != v4 by {
                assert(rest[j] == addresses[j]);
            }
            assert(addresses[addresses.len() - 1] == addresses.last());
        }
    }
}

/// A transport takes over the limits and addresses of its node. A client neither
/// relays for other peers nor tells its external addresses, and another node does
/// both.
pub proof fn law_clients_serve_nobody(config: NodeConfig, capacity: usize)
    ensures
        ({
            let built = TransportConfig::of_node(config, capacity);
            &&& built.enable_relay_service <==> config.mode != NodeMode::Client
            &&& built.advertise_external_addresses <==> built.enable_relay_service
            &&& built.listen_addrs == config.listen_addrs
            &&& built.connection_timeout_millis == config.connection_timeout_millis
            &&& built.max_connections == config.max_connections
            &&& built.max_message_size == config.max_message_size
            &&& built.user_agent == config.user_agent
            &&& built.allow_loopback == config.allow_loopback
            &&& built.event_channel_capacity == capacity
        }),
{
}

} // verus!
