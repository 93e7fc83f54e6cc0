//! Channels, peers and messages.

use saorsa_core::address::{IpAddr, MultiAddr, SocketAddr};
use saorsa_core::identity::NodeIdentity;
use saorsa_core::peer_id::PeerId;
use saorsa_core::peer_record::AddressType;
use saorsa_core::transport::dial::{
    address_kind_label, check_daemon_identity, conclude_dial, external_meets_proof_threshold,
    identity_wait_step, DaemonFault, DialBook, IdentityWait,
};
use saorsa_core::transport::dispatch::{
    follow_connection, gather_announcements, identity_announcements, note_announcement,
    receive_message,
    shard_channel_capacity, shard_index_for_hash, AnnounceOutcome, AnnouncedIdentity,
    ConnectionAction, ConnectionEvent, DropCounter, ParsedMessage,
};
use saorsa_core::transport::handle::{
    canonical_channel_id, dual_stack_alternate, Backend, TransportHandle,
};
use saorsa_core::transport::inbound::{
    Delivery, HostedIdentities, HostingFault, PendingRequests, TrafficCounters,
};
use saorsa_core::transport::maps::{Capabilities, ProvenExternals};
use saorsa_core::transport::outbound::{
    after_shared_send, after_upgrade, begin_message, classify_send_error, finish_send,
    publication_groups, wants_upgrade, ChannelSend, EndpointFault, MessagePhase, PublishRun,
    SendFailureKind, SendFailureStage, SendFault, SendStep, UpgradeEvent, UpgradeRun, UpgradeStep,
};
use saorsa_core::transport::registry::{
    ChannelRegistry, Connectivity, ConnectionStatus, PeerEvent,
};
use saorsa_core::transport::requests::{
    close_request, open_new_request, open_request, request_timeout, Answer, MESSAGE_ID_CHARS,
};
use saorsa_core::transport::setup::{
    partition_listen_addresses, plan_transport, NodeConfig, NodeMode, TransportConfig,
};
use saorsa_core::transport::wire::{
    create_identity_announce_bytes, create_protocol_message, frame_capability, frame_envelope,
    parse_multiplex_capability, parse_request_envelope, serialize_wire_message,
    compute_signable_bytes, validate_protocol_name, MultiplexCapability, RequestFault, Statement,
    WireFault, IDENTITY_ANNOUNCE_PROTOCOL,
};

const MAGIC: &[u8] = b"MAGIC";

fn peer(seed: u8) -> PeerId {
    PeerId::from_bytes([seed; 32])
}

fn sa(a: u8, b: u8, c: u8, d: u8, port: u16) -> SocketAddr {
    SocketAddr::new(IpAddr::v4(a, b, c, d), port)
}

fn seed_observer(proven: &mut ProvenExternals, external: SocketAddr, observer: IpAddr) {
    proven.observe(external.canonicalize(), observer);
}

#[test]
fn external_with_no_observers_is_not_proven() {
    let proven = ProvenExternals::new();
    assert!(!external_meets_proof_threshold(sa(198, 51, 100, 1, 10000), &proven));
}

#[test]
fn external_with_one_observer_is_not_proven() {
    let mut proven = ProvenExternals::new();
    let ext = sa(198, 51, 100, 1, 10000);
    seed_observer(&mut proven, ext, IpAddr::v4(203, 0, 113, 1));
    assert!(!external_meets_proof_threshold(ext, &proven));
}

#[test]
fn external_with_two_distinct_observers_is_proven() {
    let mut proven = ProvenExternals::new();
    let ext = sa(198, 51, 100, 1, 10000);
    seed_observer(&mut proven, ext, IpAddr::v4(203, 0, 113, 1));
    seed_observer(&mut proven, ext, IpAddr::v4(203, 0, 113, 2));
    assert!(external_meets_proof_threshold(ext, &proven));
}

#[test]
fn duplicate_observer_does_not_count_twice() {
    let mut proven = ProvenExternals::new();
    let ext = sa(198, 51, 100, 1, 10000);
    seed_observer(&mut proven, ext, IpAddr::v4(203, 0, 113, 1));
    seed_observer(&mut proven, ext, IpAddr::v4(203, 0, 113, 1));
    assert!(
        !external_meets_proof_threshold(ext, &proven),
        "the same observer reporting twice must not satisfy the distinct-observer quorum"
    );
}

#[test]
fn one_externals_proof_does_not_promote_another() {
    let mut proven = ProvenExternals::new();
    let ext_a = sa(198, 51, 100, 1, 10000);
    let ext_b = sa(198, 51, 100, 2, 10000);
    seed_observer(&mut proven, ext_a, IpAddr::v4(203, 0, 113, 1));
    seed_observer(&mut proven, ext_a, IpAddr::v4(203, 0, 113, 2));
    assert!(external_meets_proof_threshold(ext_a, &proven));
    assert!(
        !external_meets_proof_threshold(ext_b, &proven),
        "B has no observers; A's proof must not leak across externals"
    );
}

#[test]
fn v4_external_proof_does_not_promote_v6_external() {
    let mut proven = ProvenExternals::new();
    let v4 = sa(198, 51, 100, 1, 10000);
    let v6 = SocketAddr::new(IpAddr::V6(0x2001_0db8 << 96 | 1), 10000);
    seed_observer(&mut proven, v4, IpAddr::v4(203, 0, 113, 1));
    seed_observer(&mut proven, v4, IpAddr::v4(203, 0, 113, 2));
    assert!(external_meets_proof_threshold(v4, &proven));
    assert!(
        !external_meets_proof_threshold(v6, &proven),
        "different family: v4 proof must not leak to a v6 external"
    );
}

#[test]
fn lookup_normalises_v4_mapped_v6() {
    let mut proven = ProvenExternals::new();
    let v4 = sa(198, 51, 100, 1, 10000);
    seed_observer(&mut proven, v4, IpAddr::v4(203, 0, 113, 1));
    seed_observer(&mut proven, v4, IpAddr::v4(203, 0, 113, 2));

    let mapped = dual_stack_alternate(&v4).expect("test mapped addr");
    assert_eq!(mapped.ip, IpAddr::V6(0xffff_c633_6401));
    assert!(
        external_meets_proof_threshold(mapped, &proven),
        "lookup via IPv4-mapped IPv6 must normalize to the v4 entry"
    );
}

#[test]
fn authenticated_registration_makes_peer_info_queryable_before_event_consumers_run() {
    let mut registry = ChannelRegistry::new();
    let mut connectivity = Connectivity::new();
    let app_id = peer(0x31);
    let remote_addr = sa(64, 227, 163, 41, 43782);
    let channel_id = canonical_channel_id(remote_addr);

    let event = registry.register_authenticated_peer_channel(
        &mut connectivity,
        channel_id,
        remote_addr,
        app_id,
        "node/test".to_string(),
        7,
    );

    assert!(registry.is_active(&channel_id));

    let mapped_channel = *registry
        .channels_of(&app_id)
        .first()
        .expect("app peer should be mapped to a channel");
    let peer_info = registry
        .channel_info(&mapped_channel)
        .expect("mapped channel should have peer info before event consumers run");

    assert_eq!(peer_info.channel_id, channel_id);
    assert_eq!(peer_info.status, ConnectionStatus::Connected);
    assert_eq!(peer_info.addresses, vec![MultiAddr::quic(remote_addr)]);

    match event.expect("peer connected event") {
        PeerEvent::Connected(peer_id, user_agent) => {
            assert_eq!(peer_id, app_id);
            assert_eq!(user_agent, "node/test");
        }
        other => panic!("unexpected event: {other:?}"),
    }
}

fn register(
    registry: &mut ChannelRegistry,
    connectivity: &mut Connectivity,
    who: PeerId,
    remote: SocketAddr,
) -> Option<PeerEvent> {
    registry.register_authenticated_peer_channel(
        connectivity,
        canonical_channel_id(remote),
        remote,
        who,
        "agent".to_string(),
        1,
    )
}

#[test]
fn news_of_a_peer_come_once_for_both_transports() {
    let mut handle = TransportHandle::new(true);
    let who = peer(1);
    let first = sa(203, 0, 113, 1, 1);
    let second = sa(203, 0, 113, 2, 2);
    assert!(register(&mut handle.own, &mut handle.connectivity, who, first).is_some());
    let shared = handle.shared.as_mut().expect("shared");
    assert!(register(shared, &mut handle.connectivity, who, second).is_none());
    assert_eq!(handle.connectivity.count(&who), 2);
    assert_eq!(handle.connected_peers(), vec![who]);
    assert_eq!(handle.peer_count(), 1);
    assert_eq!(handle.channels_for_peer(&who), vec![second, first]);
    assert_eq!(handle.peers_on_channel(&first), vec![who]);
    assert_eq!(handle.peer_user_agent(&who), Some("agent".to_string()));
    assert_eq!(handle.peer_info(&who).expect("known").channel_id, second);
    assert_eq!(handle.peer_id_for_addr(&first), Some(who));
    assert_eq!(handle.peer_id_for_addr(&second), None);
    assert_eq!(handle.get_channel_id_by_address(&MultiAddr::quic(first)), Some(first));
    assert_eq!(handle.send_route(&second, Some(who)), Backend::Shared);
    assert_eq!(handle.send_route(&second, Some(peer(9))), Backend::Own);
    assert!(handle.is_connection_active(&first));
    let (backend, known, lost) = handle.remove_channel(&second);
    assert_eq!((backend, known), (Backend::Shared, true));
    assert!(lost.is_empty());
    let release = handle.disconnect_peer(&who);
    assert!(release.own_event);
    assert!(!release.shared_event);
    assert_eq!(release.own_channels, vec![first]);
    assert!(!handle.is_peer_connected(&who));
    assert!(!handle.is_known_app_peer_id(&who));
}

#[test]
fn a_channel_is_closed_with_its_last_peer() {
    let mut registry = ChannelRegistry::new();
    let mut connectivity = Connectivity::new();
    let remote = sa(203, 0, 113, 1, 1);
    register(&mut registry, &mut connectivity, peer(1), remote);
    register(&mut registry, &mut connectivity, peer(2), remote);
    let (closed, lost) = registry.disconnect_peer(&mut connectivity, &peer(1));
    assert!(closed.is_empty());
    assert!(lost);
    assert!(registry.is_linked(&peer(2), &remote));
    assert!(registry.is_active(&remote));
    let released = registry.disconnect_all_peers(&mut connectivity);
    assert_eq!(released.len(), 1);
    assert_eq!(released[0].channels, vec![remote]);
    assert!(!registry.is_active(&remote));
    let (closed, lost) = registry.disconnect_peer(&mut connectivity, &peer(1));
    assert!(closed.is_empty() && !lost);
}

#[test]
fn the_loss_of_a_channel_undoes_a_registration() {
    let mut registry = ChannelRegistry::new();
    let mut connectivity = Connectivity::new();
    let remote = sa(203, 0, 113, 1, 1);
    let action =
        follow_connection(&mut registry, &mut connectivity, ConnectionEvent::Established(remote), 3);
    assert!(matches!(action, ConnectionAction::Announce(at) if at == remote));
    assert_eq!(registry.list_active_connections().len(), 1);
    assert!(registry.connected_peers().is_empty());
    register(&mut registry, &mut connectivity, peer(1), remote);
    assert_eq!(registry.channel_info(&remote).expect("known").connected_at, 3);
    let action =
        follow_connection(&mut registry, &mut connectivity, ConnectionEvent::Lost(remote), 4);
    assert!(matches!(action, ConnectionAction::Lost(lost) if lost == vec![peer(1)]));
    assert!(registry.channel_info(&remote).is_none());
    assert!(registry.user_agent(&peer(1)).is_none());
    assert_eq!(connectivity.count(&peer(1)), 0);
    let action = follow_connection(
        &mut registry,
        &mut connectivity,
        ConnectionEvent::PeerAddressUpdated,
        5,
    );
    assert!(matches!(action, ConnectionAction::Nothing));
}

#[test]
fn dials_are_prepared_noted_and_concluded() {
    let mut book = DialBook::new();
    let wildcard = MultiAddr::quic(sa(0, 0, 0, 0, 9000));
    assert_eq!(book.prepare_dial(&wildcard), Some(sa(127, 0, 0, 1, 9000)));
    assert!(book.was_dialed(&sa(127, 0, 0, 1, 9000)));
    assert!(book.is_known(&IpAddr::v4(127, 0, 0, 1)));
    let browser = MultiAddr::webrtc_direct(sa(203, 0, 113, 1, 1), [7; 32]);
    assert_eq!(book.prepare_dial(&browser), None);
    assert!(!book.is_known(&IpAddr::v4(203, 0, 113, 1)));

    let mut registry = ChannelRegistry::new();
    let listen = vec![MultiAddr::quic(sa(203, 0, 113, 9, 1))];
    let remote = sa(203, 0, 113, 1, 1);
    let address = MultiAddr::quic(remote);
    assert_eq!(conclude_dial(&mut registry, &listen, remote, &address, 2), Some(remote));
    let info = registry.channel_info(&remote).expect("known");
    assert_eq!(info.protocols, vec!["p2p-foundation/1.0".to_string()]);
    assert_eq!(conclude_dial(&mut registry, &listen, sa(203, 0, 113, 9, 1), &address, 2), None);
}

#[test]
fn a_shared_endpoint_must_belong_to_the_expected_daemon() {
    assert_eq!(check_daemon_identity(&peer(1), Some(Ok(peer(1)))), Ok(()));
    let mismatch = check_daemon_identity(&peer(1), Some(Ok(peer(2)))).unwrap_err();
    assert_eq!(mismatch, DaemonFault::Mismatch(peer(1), peer(2)));
    assert_eq!(
        mismatch.message(),
        format!(
            "shared endpoint identity mismatch: expected {}, got {}",
            "01".repeat(32),
            "02".repeat(32)
        )
    );
    assert_eq!(check_daemon_identity(&peer(1), None), Err(DaemonFault::NoIdentity));
    assert_eq!(
        check_daemon_identity(&peer(1), Some(Err("bad".to_string()))).unwrap_err().message(),
        "bad"
    );
}

#[test]
fn an_identity_is_awaited_until_it_is_proven_or_cannot_be() {
    let peers = vec![peer(1), peer(2)];
    assert_eq!(
        identity_wait_step(&peers, Some(peer(2)), false, true),
        IdentityWait::Authenticated(peer(2))
    );
    assert_eq!(identity_wait_step(&peers, None, true, false), IdentityWait::Authenticated(peer(1)));
    assert_eq!(identity_wait_step(&peers, Some(peer(3)), false, true), IdentityWait::Closed);
    assert_eq!(identity_wait_step(&peers, Some(peer(3)), true, true), IdentityWait::TimedOut);
    assert_eq!(identity_wait_step(&Vec::new(), None, true, false), IdentityWait::Wait);
    assert_eq!(address_kind_label(Some(AddressType::Lan)), "Lan");
    assert_eq!(address_kind_label(None), "unknown");
}

fn config(mode: NodeMode, listen_addrs: Vec<MultiAddr>) -> TransportConfig {
    TransportConfig::from_node_config(
        NodeConfig {
            listen_addrs,
            connection_timeout_millis: 30_000,
            max_connections: 100,
            max_message_size: None,
            user_agent: "node/test".to_string(),
            allow_loopback: false,
            mode,
        },
        16,
    )
}

#[test]
fn a_transport_binds_the_first_address_of_each_version() {
    let v6 = SocketAddr::new(IpAddr::V6(0), 5);
    let listen = vec![
        MultiAddr::webrtc_direct(sa(0, 0, 0, 0, 1), [0; 32]),
        MultiAddr::quic(sa(0, 0, 0, 0, 2)),
        MultiAddr::quic(sa(0, 0, 0, 0, 3)),
        MultiAddr::quic(v6),
    ];
    assert_eq!(partition_listen_addresses(&listen), (Some(sa(0, 0, 0, 0, 2)), Some(v6)));
    let plan = plan_transport(config(NodeMode::Client, listen), peer(1), false, false);
    assert_eq!(plan.bind_v4, Some(sa(0, 0, 0, 0, 2)));
    assert!(!plan.config.enable_relay_service);
    assert!(!plan.config.advertise_external_addresses);
    assert!(plan.hosting.is_hosted(&peer(1)));
    assert!(plan.runs_reachability_driver);
    let plan = plan_transport(config(NodeMode::Node, Vec::new()), peer(1), true, false);
    assert!(plan.config.enable_relay_service);
    assert!(!plan.hosting.is_hosted(&peer(1)));
    assert!(!plan.runs_reachability_driver);
}

#[test]
fn one_identity_looks_after_a_shared_transport() {
    let mut single = HostedIdentities::new(false, peer(1), "a".to_string());
    let refused = single.logical_handle(peer(2), "b".to_string()).unwrap_err();
    assert_eq!(refused, HostingFault::NotMultiplexed);
    assert_eq!(refused.message(), "logical identities require a multiplexed transport");
    let mut shared = HostedIdentities::new(true, peer(1), "a".to_string());
    assert_eq!(shared.logical_handle(peer(2), "b".to_string()), Ok(true));
    assert_eq!(shared.logical_handle(peer(3), "c".to_string()), Ok(false));
    let refused = shared.logical_handle(peer(3), "c".to_string()).unwrap_err();
    assert_eq!(
        refused.message(),
        format!("logical identity {} is already registered", "03".repeat(32))
    );
    shared.release(&peer(2), true);
    assert!(!shared.is_hosted(&peer(2)));
    assert_eq!(shared.logical_handle(peer(4), "d".to_string()), Ok(true));
    assert_eq!(shared.target(&Some(peer(3))), Some(peer(3)));
    assert_eq!(shared.target(&None), None);
}

struct Inbound {
    registry: ChannelRegistry,
    connectivity: Connectivity,
    hosting: HostedIdentities,
    pending: PendingRequests,
    capabilities: Capabilities,
    traffic: TrafficCounters,
}

fn inbound(hosted: PeerId) -> Inbound {
    Inbound {
        registry: ChannelRegistry::new(),
        connectivity: Connectivity::new(),
        hosting: HostedIdentities::new(false, hosted, "me".to_string()),
        pending: PendingRequests::new(),
        capabilities: Capabilities::new(),
        traffic: TrafficCounters::new(),
    }
}

fn receive(
    state: &mut Inbound,
    topic: &str,
    data: Vec<u8>,
    from: Option<PeerId>,
) -> saorsa_core::transport::dispatch::Received {
    let message = ParsedMessage {
        topic: topic.to_string(),
        data,
        authenticated_node_id: from,
        destination: None,
        user_agent: "them".to_string(),
        payload_len: 10,
    };
    receive_message(
        &mut state.registry,
        &mut state.connectivity,
        &state.hosting,
        &mut state.pending,
        &mut state.capabilities,
        &mut state.traffic,
        sa(203, 0, 113, 1, 9),
        25,
        &message,
        MAGIC,
        1,
    )
}

#[test]
fn signed_messages_show_who_is_on_a_channel() {
    let mut state = inbound(peer(1));
    let received = receive(&mut state, "chat", vec![1], Some(peer(2)));
    assert!(received.bind_connection);
    assert!(matches!(received.event, Some(PeerEvent::Connected(who, _)) if who == peer(2)));
    assert_eq!(received.delivery, Delivery::Event(peer(1)));
    let again = receive(&mut state, "chat", vec![1], Some(peer(2)));
    assert!(!again.bind_connection && again.event.is_none());
    // An echo of this node's own message, and an unsigned one, show nothing.
    let echo = receive(&mut state, "chat", vec![1], Some(peer(1)));
    assert!(!echo.bind_connection && echo.event.is_none());
    let unsigned = receive(&mut state, "chat", vec![1], None);
    assert_eq!(unsigned.delivery, Delivery::Event(peer(1)));
    assert_eq!(state.registry.connected_peers(), vec![peer(2)]);
    assert_eq!(state.traffic.wire_rx_count, 4);
    assert_eq!(state.traffic.wire_rx_bytes, 100);
    assert_eq!(state.traffic.overhead_rx_bytes, 60);
}

#[test]
fn only_the_peer_that_was_asked_answers_a_request() {
    let mut state = inbound(peer(1));
    let (topic, request) = open_request(
        &mut state.pending,
        &peer(1),
        peer(2),
        "echo",
        "id-1".to_string(),
        vec![7, 7],
        2,
    )
    .expect("opened");
    assert_eq!(topic, "/rr/echo");
    assert_eq!(
        parse_request_envelope(&request),
        Some(("id-1".to_string(), false, vec![7, 7]))
    );
    // A request is no answer: it goes to the followers.
    let delivery = receive(&mut state, &topic, request, Some(peer(2))).delivery;
    assert_eq!(delivery, Delivery::Event(peer(1)));
    let answer = frame_envelope("echo", "id-1", true, vec![8]).expect("framed").1;
    let delivery = receive(&mut state, &topic, answer.clone(), Some(peer(3))).delivery;
    assert_eq!(delivery, Delivery::OriginMismatch(peer(2)));
    let delivery = receive(&mut state, &topic, answer.clone(), None).delivery;
    assert_eq!(delivery, Delivery::OriginMismatch(peer(2)));
    let delivery = receive(&mut state, &topic, answer.clone(), Some(peer(2))).delivery;
    assert_eq!(delivery, Delivery::Response(peer(1), "id-1".to_string(), vec![8]));
    let delivery = receive(&mut state, &topic, answer, Some(peer(2))).delivery;
    assert_eq!(delivery, Delivery::Unmatched);
}

#[test]
fn answers_without_a_clear_receiver_are_dropped() {
    let mut shared = HostedIdentities::new(true, peer(1), "a".to_string());
    shared.logical_handle(peer(1), "a".to_string()).expect("first");
    shared.logical_handle(peer(2), "b".to_string()).expect("second");
    let mut pending = PendingRequests::new();
    let answer = frame_envelope("echo", "id", true, vec![8]).expect("framed").1;
    let topic = "/rr/echo".to_string();
    let sender = Some(peer(3));
    assert_eq!(
        shared.route_message(&mut pending, &topic, &answer, &sender, &None),
        Delivery::Unaddressed
    );
    assert_eq!(
        shared.route_message(&mut pending, &"chat".to_string(), &answer, &sender, &None),
        Delivery::Dropped
    );
    assert_eq!(
        shared.route_message(&mut pending, &"chat".to_string(), &answer, &sender, &Some(peer(2))),
        Delivery::Event(peer(2))
    );
    let announcement = IDENTITY_ANNOUNCE_PROTOCOL.to_string();
    assert_eq!(
        shared.route_message(&mut pending, &announcement, &answer, &sender, &Some(peer(2))),
        Delivery::Announcement
    );
}

#[test]
fn requests_are_bounded_and_leave_no_trace() {
    let mut pending = PendingRequests::new();
    let me = peer(1);
    let mut open = |id: &str, protocol: &str, limit: usize| {
        open_request(&mut pending, &me, peer(2), protocol, id.to_string(), vec![], limit)
            .map(|opened| opened.0)
    };
    assert_eq!(open("a", "x/y", 1), Err(RequestFault::InvalidProtocol));
    assert_eq!(open("a", "x", 1), Ok("/rr/x".to_string()));
    assert_eq!(open("b", "x", 1), Err(RequestFault::TooManyRequests));
    assert_eq!(pending.count(&me), 1);
    let id = "a".to_string();
    let closed = close_request(&mut pending, &me, peer(2), &id, Answer::Response(vec![5], 12));
    let response = closed.expect("answered");
    assert_eq!((response.data, response.latency_millis), (vec![5], 12));
    assert_eq!(pending.count(&me), 0);
    let closed = close_request(&mut pending, &me, peer(2), &id, Answer::Dropped);
    assert!(matches!(closed, Err(RequestFault::ConnectionClosed(who)) if who == peer(2)));
    let closed = close_request(&mut pending, &me, peer(2), &id, Answer::TimedOut(9));
    assert!(matches!(closed, Err(RequestFault::Timeout(9))));
    assert_eq!(request_timeout(5, 3), 3);
    assert_eq!(request_timeout(2, 3), 2);
    for name in ["", "a/b", "a\\b", "a\0b"] {
        assert!(!validate_protocol_name(name));
    }
    assert!(validate_protocol_name("relay-canary-v2"));
    assert_eq!(parse_request_envelope(&[0xff]), None);
}

#[test]
fn announcements_carry_the_shared_endpoint() {
    let capability = MultiplexCapability {
        daemon_peer_id: peer(9),
        addresses: vec![
            MultiAddr::quic(sa(0, 0, 0, 0, 7)),
            MultiAddr::quic(sa(127, 0, 0, 1, 8)),
            MultiAddr::quic(sa(198, 51, 100, 7, 0)),
            MultiAddr::quic(SocketAddr::new(IpAddr::V6(0), 7)),
            MultiAddr::quic(sa(198, 51, 100, 7, 1)),
            MultiAddr::quic(sa(198, 51, 100, 7, 2)),
            MultiAddr::quic(sa(198, 51, 100, 7, 3)),
        ],
    };
    let data = frame_capability(Some(&capability), MAGIC).expect("framed");
    assert!(data.starts_with(MAGIC));
    let remote = sa(203, 0, 113, 1, 4000);
    let read = parse_multiplex_capability(&data, MAGIC, remote).expect("an endpoint");
    assert_eq!(read.daemon_peer_id, peer(9));
    assert_eq!(
        read.addresses,
        vec![
            MultiAddr::quic(sa(203, 0, 113, 1, 7)),
            MultiAddr::quic(sa(203, 0, 113, 1, 8)),
            MultiAddr::quic(sa(198, 51, 100, 7, 1)),
            MultiAddr::quic(sa(198, 51, 100, 7, 2)),
        ]
    );
    assert!(parse_multiplex_capability(&data, b"OTHER", remote).is_none());
    assert!(parse_multiplex_capability(b"MAGIC\xff", MAGIC, remote).is_none());
    assert_eq!(frame_capability(None, MAGIC), Ok(Vec::new()));

    let mut state = inbound(peer(1));
    let received = receive(&mut state, IDENTITY_ANNOUNCE_PROTOCOL, data, Some(peer(2)));
    assert_eq!(received.delivery, Delivery::Announcement);
    let learned = state.capabilities.get(&peer(2)).expect("learned");
    assert_eq!(learned.daemon_peer_id, peer(9));
}

type Plain = (String, Vec<u8>, [u8; 32], u64, String, Vec<u8>, Vec<u8>);

#[test]
fn messages_are_signed_by_their_sender() {
    let identity = NodeIdentity::generate().expect("identity");
    let bytes = create_protocol_message(
        &identity,
        "node/test",
        false,
        MAGIC,
        Some(peer(2)),
        "chat",
        &[1, 2, 3],
        Ok(77),
    )
    .expect("created");
    let plain: Plain = postcard::from_bytes(&bytes).expect("a message");
    assert_eq!((plain.0.as_str(), plain.1.as_slice()), ("chat", &[1u8, 2, 3][..]));
    assert_eq!(plain.2, *identity.peer_id().as_bytes());
    assert_eq!((plain.3, plain.4.as_str()), (77, "node/test"));
    assert_eq!(plain.5, identity.public_key());
    let statement = Statement {
        protocol: "chat".to_string(),
        data: vec![1, 2, 3],
        from: identity.peer_id(),
        to: None,
        timestamp: 77,
        user_agent: "node/test".to_string(),
    };
    let signable = compute_signable_bytes(&statement).expect("signable");
    assert_eq!(
        signable,
        postcard::to_stdvec(&("chat", &[1u8, 2, 3][..], identity.peer_id().as_bytes(), 77u64, "node/test"))
            .unwrap()
    );
    assert_eq!(
        serialize_wire_message(&statement, MAGIC, &plain.5, &plain.6).expect("encoded"),
        bytes
    );
}

#[test]
fn messages_on_a_shared_transport_name_their_receiver() {
    let identity = NodeIdentity::generate().expect("identity");
    let create = |destination, clock| {
        create_protocol_message(&identity, "a", true, MAGIC, destination, "chat", &[1], clock)
    };
    let refused = create(None, Ok(1)).unwrap_err();
    assert_eq!(refused, WireFault::NoDestination);
    assert_eq!(refused.message(true), "multiplexed messages require a logical destination");
    let refused = create(Some(peer(2)), Err("before the epoch".to_string())).unwrap_err();
    assert_eq!(refused.message(true), "System time error: before the epoch");
    let bytes = create(Some(peer(2)), Ok(1)).expect("created");
    assert!(bytes.starts_with(MAGIC));
    let plain: (String, Vec<u8>, [u8; 32], [u8; 32], u64, String, Vec<u8>, Vec<u8>) =
        postcard::from_bytes(&bytes[MAGIC.len()..]).expect("a message");
    assert_eq!(plain.3, [2; 32]);
    assert_eq!(
        WireFault::Signing("x".to_string()).message(true),
        "Failed to sign multiplexed message: x"
    );
    assert_eq!(WireFault::Encoding("x".to_string()).message(false), "Failed to serialize wire message: x");
}

#[test]
fn every_hosted_identity_is_announced_or_else_the_node() {
    let announced = || AnnouncedIdentity {
        identity: NodeIdentity::generate().expect("identity"),
        user_agent: "agent".to_string(),
    };
    let hosted = vec![announced(), announced()];
    let node = announced();
    let messages = identity_announcements(&hosted, &node, None, MAGIC, &Ok(5));
    assert_eq!(messages.len(), 2);
    let plain: Plain = postcard::from_bytes(&messages[1]).expect("a message");
    assert_eq!(plain.0, IDENTITY_ANNOUNCE_PROTOCOL);
    assert_eq!(plain.2, *hosted[1].identity.peer_id().as_bytes());
    let messages = identity_announcements(&Vec::new(), &node, None, MAGIC, &Ok(5));
    let plain: Plain = postcard::from_bytes(&messages[0]).expect("a message");
    assert_eq!(plain.2, *node.identity.peer_id().as_bytes());
    let none = identity_announcements(&hosted, &node, None, MAGIC, &Err("clock".to_string()));
    assert!(none.is_empty());
    assert!(matches!(
        create_identity_announce_bytes(&node.identity, "a", None, MAGIC, Err("c".to_string())),
        Err(WireFault::Clock(_))
    ));
    let mut traffic = TrafficCounters::new();
    assert!(note_announcement(&mut traffic, 40, AnnounceOutcome::Sent));
    assert!(note_announcement(&mut traffic, 40, AnnounceOutcome::Failed));
    assert!(!note_announcement(&mut traffic, 40, AnnounceOutcome::PeerNotFound));
    assert_eq!(traffic.identity_announce_tx_bytes, 40);
    assert_eq!(traffic.wire_tx_count, 1);
}

#[test]
fn failures_are_classified_by_the_first_fault_of_the_transport() {
    let kind = |causes| classify_send_error(&causes);
    assert_eq!(kind(vec![None, Some(EndpointFault::PeerNotFound)]), SendFailureKind::StaleChannel);
    assert_eq!(
        kind(vec![
            Some(EndpointFault::SendFailed(SendFailureStage::Write)),
            Some(EndpointFault::PeerNotFound)
        ]),
        SendFailureKind::StreamWrite
    );
    assert_eq!(
        kind(vec![Some(EndpointFault::SendFailed(SendFailureStage::OpenStream))]),
        SendFailureKind::StaleChannel
    );
    assert_eq!(
        kind(vec![Some(EndpointFault::SendFailed(SendFailureStage::DeliveryAck))]),
        SendFailureKind::StreamFinish
    );
    assert_eq!(
        kind(vec![Some(EndpointFault::SendFailed(SendFailureStage::WriteProgressTimeout))]),
        SendFailureKind::WriteProgressTimeout
    );
    assert_eq!(kind(vec![Some(EndpointFault::Other)]), SendFailureKind::Other);
    assert_eq!(kind(vec![None]), SendFailureKind::Other);
}

#[test]
fn stale_channels_are_skipped_and_partial_sends_are_not_repeated() {
    let (a, b, c) = (sa(1, 1, 1, 1, 1), sa(2, 2, 2, 2, 2), sa(3, 3, 3, 3, 3));
    let (mut send, first) = ChannelSend::new(vec![a, b, c]);
    assert_eq!(first, SendStep::Try(a));
    assert_eq!(send.step(Err(SendFailureKind::StaleChannel)), SendStep::Retry(a, b));
    assert_eq!(
        send.step(Err(SendFailureKind::StreamWrite)),
        SendStep::Failed(Some(b), SendFault::Channel(SendFailureKind::StreamWrite))
    );
    let (mut send, _) = ChannelSend::new(vec![a]);
    assert_eq!(send.step(Ok(())), SendStep::Delivered);
    let (mut send, _) = ChannelSend::new(vec![a]);
    let gone = SendFault::Channel(SendFailureKind::StaleChannel);
    assert_eq!(send.step(Err(SendFailureKind::StaleChannel)), SendStep::Failed(Some(a), gone));
    let (_, nobody) = ChannelSend::new(vec![]);
    assert_eq!(nobody, SendStep::Failed(None, SendFault::PeerNotFound));
    assert_eq!(after_shared_send(Err(gone)), MessagePhase::SendOwn);
    assert_eq!(
        after_shared_send(Err(SendFault::PeerNotFound)),
        MessagePhase::Failed(SendFault::PeerNotFound)
    );
    assert_eq!(after_shared_send(Ok(())), MessagePhase::Delivered);
}

#[test]
fn a_peer_is_moved_to_the_shared_transport_where_it_can_be() {
    assert!(wants_upgrade(false, None, true));
    assert!(!wants_upgrade(false, Some(299), true));
    assert!(wants_upgrade(false, Some(300), true));
    assert!(!wants_upgrade(true, None, true));
    assert!(!wants_upgrade(false, None, false));
    assert_eq!(begin_message(true, false, None, true), MessagePhase::Upgrade);
    assert_eq!(begin_message(true, true, None, true), MessagePhase::SendShared);
    assert_eq!(begin_message(false, false, None, true), MessagePhase::SendOwn);
    assert_eq!(after_upgrade(true), MessagePhase::SendShared);

    let (x, y) = (MultiAddr::quic(sa(1, 1, 1, 1, 1)), MultiAddr::quic(sa(2, 2, 2, 2, 2)));
    let capability = MultiplexCapability { daemon_peer_id: peer(9), addresses: vec![x, y] };
    let (mut run, first) = UpgradeRun::new(capability);
    assert_eq!(first, UpgradeStep::Dial(x, peer(9)));
    let channel = sa(1, 1, 1, 1, 1);
    assert_eq!(run.step(UpgradeEvent::Dialed(channel)), UpgradeStep::AwaitIdentity(channel));
    assert_eq!(
        run.step(UpgradeEvent::NotIdentified),
        UpgradeStep::CloseThenDial(channel, y, peer(9))
    );
    assert_eq!(run.step(UpgradeEvent::DialFailed), UpgradeStep::GivenUp(None));
    let (mut run, _) = UpgradeRun::new(MultiplexCapability {
        daemon_peer_id: peer(9),
        addresses: vec![x],
    });
    run.step(UpgradeEvent::Dialed(channel));
    assert_eq!(run.step(UpgradeEvent::Identified), UpgradeStep::Upgraded);
}

#[test]
fn a_publication_reaches_each_recipient_once() {
    let mut registry = ChannelRegistry::new();
    let mut connectivity = Connectivity::new();
    let (a, b, c) = (sa(1, 1, 1, 1, 1), sa(2, 2, 2, 2, 2), sa(3, 3, 3, 3, 3));
    register(&mut registry, &mut connectivity, peer(1), a);
    register(&mut registry, &mut connectivity, peer(1), b);
    registry.upsert_connected_channel(c, c, 1, true);
    let groups = publication_groups(&registry);
    assert_eq!(groups.len(), 2);
    assert_eq!(groups[0].destination, Some(peer(1)));
    let (first, second) = (groups[0].channels[0], groups[0].channels[1]);
    assert_eq!(groups[0].channels.len(), 2);
    assert!((first, second) == (a, b) || (first, second) == (b, a));
    assert_eq!((groups[1].destination, groups[1].channels.clone()), (None, vec![c]));
    let (mut run, step) = PublishRun::new(groups);
    assert_eq!(step.send, Some((first, Some(peer(1)))));
    let step = run.step(false);
    assert_eq!((step.forget, step.send), (Some(first), Some((second, Some(peer(1))))));
    let step = run.step(true);
    assert_eq!((step.forget, step.send), (None, Some((c, None))));
    let step = run.step(false);
    assert_eq!((step.forget, step.send), (Some(c), None));
    assert_eq!(run.progress(), (1, 2));
}

#[test]
fn sends_are_counted_and_failed_channels_are_not_up() {
    let mut registry = ChannelRegistry::new();
    let mut traffic = TrafficCounters::new();
    let channel = sa(203, 0, 113, 1, 1);
    registry.prepare_send(channel, false, 4);
    assert!(registry.is_active(&channel));
    assert_eq!(
        registry.channel_info(&channel).expect("known").addresses,
        vec![MultiAddr::quic(channel)]
    );
    finish_send(&mut registry, &mut traffic, &channel, 100, 30, true);
    assert_eq!((traffic.wire_tx_bytes, traffic.overhead_tx_bytes), (100, 70));
    finish_send(&mut registry, &mut traffic, &channel, 100, 30, false);
    assert_eq!(traffic.wire_tx_count, 1);
    assert!(!registry.is_active(&channel));
}

#[test]
fn messages_are_spread_over_shards_and_drops_are_counted() {
    assert_eq!(shard_channel_capacity(1024), 128);
    assert_eq!(shard_channel_capacity(8), 16);
    assert_eq!(shard_index_for_hash(u64::MAX), 7);
    assert_eq!(shard_index_for_hash(16), 0);
    let mut drops = DropCounter::new();
    assert_eq!(drops.note_drop(), Some(1));
    for _ in 0..63 {
        assert_eq!(drops.note_drop(), None);
    }
    assert_eq!(drops.note_drop(), Some(65));
}

#[test]
fn announcements_that_failed_are_left_out() {
    let failed = || Err(WireFault::Signing("no randomness".to_string()));
    let created = vec![Ok(vec![1]), failed(), Ok(vec![2, 3]), failed()];
    assert_eq!(gather_announcements(created), vec![vec![1], vec![2, 3]]);
    assert_eq!(gather_announcements(vec![failed(), failed()]), Vec::<Vec<u8>>::new());
}

#[test]
fn requests_get_message_ids_of_their_own() {
    let mut pending = PendingRequests::new();
    let mut open = || open_new_request(&mut pending, &peer(1), peer(2), "echo", vec![9], 3);
    let (first, topic, bytes) = open().expect("opened");
    let (second, _, _) = open().expect("opened");
    assert_eq!(first.len(), MESSAGE_ID_CHARS);
    assert_ne!(first, second);
    assert_eq!(topic, "/rr/echo");
    assert_eq!(parse_request_envelope(&bytes), Some((first.clone(), false, vec![9])));
    assert_eq!(pending.count(&peer(1)), 2);
    assert_eq!(pending.expected_peer(&peer(1), &first), Some(peer(2)));
    let refused = open_new_request(&mut pending, &peer(1), peer(2), "echo", vec![], 2);
    assert_eq!(refused, Err(RequestFault::TooManyRequests));
}

#[test]
fn a_peer_is_described_by_the_shared_transport_first() {
    let mut handle = TransportHandle::new(true);
    let who = peer(1);
    let own = sa(203, 0, 113, 1, 1);
    let shared = sa(203, 0, 113, 2, 2);
    assert!(handle.peer_info(&who).is_none());
    register(&mut handle.own, &mut handle.connectivity, who, own);
    assert_eq!(handle.peer_info(&who).expect("known").channel_id, own);
    let registry = handle.shared.as_mut().expect("shared");
    register(registry, &mut handle.connectivity, who, shared);
    assert_eq!(handle.peer_info(&who).expect("known").channel_id, shared);
    handle.remove_channel(&shared);
    assert_eq!(handle.peer_info(&who).expect("known").channel_id, own);
}

#[test]
fn remotes_that_differ_only_in_flow_information_are_one_channel() {
    let plain = SocketAddr::new(IpAddr::V6(0x2001_0db8 << 96 | 1), 9000);
    let mut labelled = plain;
    labelled.flowinfo = 7;
    let mut scoped = plain;
    scoped.scope_id = 3;
    assert_eq!(canonical_channel_id(labelled), canonical_channel_id(plain));
    assert_ne!(canonical_channel_id(scoped), canonical_channel_id(plain));

    let mut registry = ChannelRegistry::new();
    let mut connectivity = Connectivity::new();
    follow_connection(&mut registry, &mut connectivity, ConnectionEvent::Established(plain), 1);
    follow_connection(&mut registry, &mut connectivity, ConnectionEvent::Established(labelled), 2);
    assert_eq!(registry.list_active_connections().len(), 1);
    follow_connection(&mut registry, &mut connectivity, ConnectionEvent::Lost(labelled), 3);
    assert!(registry.list_active_connections().is_empty());
    assert!(registry.channel_info(&plain).is_none());
}

#[test]
fn each_peer_is_let_go_of_once() {
    let mut registry = ChannelRegistry::new();
    let mut connectivity = Connectivity::new();
    register(&mut registry, &mut connectivity, peer(1), sa(203, 0, 113, 1, 1));
    register(&mut registry, &mut connectivity, peer(1), sa(203, 0, 113, 1, 2));
    register(&mut registry, &mut connectivity, peer(2), sa(203, 0, 113, 1, 2));
    let released = registry.disconnect_all_peers(&mut connectivity);
    let mut peers: Vec<PeerId> = released.iter().map(|release| release.peer).collect();
    peers.sort_by_key(|who| *who.as_bytes());
    assert_eq!(peers, vec![peer(1), peer(2)]);
    assert!(released.iter().all(|release| release.lost));
    assert!(registry.connected_peers().is_empty());
    assert!(registry.known_channels().is_empty());
}
