//! Addresses, their text and their records.

use saorsa_core::address::{canonicalize_ip, is_lan_ip, IpAddr, MultiAddr, SocketAddr};
use saorsa_core::address_text::{parse_address, AddressText};
use saorsa_core::peer_id::PeerId;
use saorsa_core::peer_record::AddressType;
use saorsa_core::text::{encode_decimal, encode_hex};
use saorsa_core::transport_address::{
    KnownReachability, KnownTransport, TransportAddressRecord, MAX_TRANSPORT_ADDRESS_PAYLOAD,
};

fn parse(text: &str) -> MultiAddr {
    match parse_address(text) {
        AddressText::Address(address) => address,
        _ => panic!("no address: {text}"),
    }
}

#[test]
fn test_network_address_creation() {
    let addr = MultiAddr::from_ipv4(0x7f00_0001, 8080);
    assert_eq!(addr.ip(), IpAddr::v4(127, 0, 0, 1));
    assert_eq!(addr.port(), 8080);
    assert!(addr.is_ipv4());
    assert!(addr.is_loopback());
}

#[test]
fn test_network_address_from_string() {
    let addr = parse("127.0.0.1:8080");
    assert_eq!(addr.ip(), IpAddr::v4(127, 0, 0, 1));
    assert_eq!(addr.port(), 8080);
}

#[test]
fn test_network_address_display() {
    let addr = MultiAddr::from_ip_port(IpAddr::v4(192, 168, 1, 1), 9000);
    let display = addr.ipv4_socket_text().expect("IPv4");
    assert!(display.contains("192.168.1.1:9000"));
}

#[test]
fn test_private_address_detection() {
    let private_addr = MultiAddr::from_ip_port(IpAddr::v4(192, 168, 1, 1), 9000);
    assert!(private_addr.is_private());

    let public_addr = MultiAddr::from_ip_port(IpAddr::v4(8, 8, 8, 8), 53);
    assert!(!public_addr.is_private());
}

#[test]
fn test_ipv6_address() {
    let addr = MultiAddr::from_ipv6(1, 8080);
    assert!(addr.is_ipv6());
    assert!(addr.is_loopback());
}

#[test]
fn test_multiaddr_tcp_parsing() {
    let addr = parse("/ip4/192.168.1.1/tcp/9000");
    assert_eq!(addr.ip(), IpAddr::v4(192, 168, 1, 1));
    assert_eq!(addr.port(), 9000);
}

#[test]
fn test_multiaddr_udp_parsing() {
    let addr = parse("/ip4/127.0.0.1/udp/10000");
    assert_eq!(addr.ip(), IpAddr::v4(127, 0, 0, 1));
    assert_eq!(addr.port(), 10000);
}

#[test]
fn test_multiaddr_quic_parsing() {
    let addr = parse("/ip4/10.0.0.1/quic/9000");
    assert_eq!(addr.ip(), IpAddr::v4(10, 0, 0, 1));
    assert_eq!(addr.port(), 9000);
}

#[test]
fn test_multiaddr_ipv6_udp_parsing() {
    let addr = match parse_address("/ip6/::1/udp/8080") {
        AddressText::Host { host, port } if host == "::1" => MultiAddr::from_ipv6(1, port),
        _ => panic!("a port at an IPv6 host"),
    };
    assert_eq!(addr.ip(), IpAddr::V6(1));
    assert_eq!(addr.port(), 8080);
    assert!(addr.is_loopback());
}

#[test]
fn texts_that_spell_no_address_are_refused() {
    for text in ["", "127.0.0.1", "256.0.0.1:80", "1.2.3.4:65536", "/ip4/1.2.3.4/sctp/1"] {
        assert!(matches!(parse_address(text), AddressText::Other), "{text}");
    }
    assert!(matches!(
        parse_address("/ip6/nonsense/udp/1"),
        AddressText::Host { host, port: 1 } if host == "nonsense"
    ));
}

#[test]
fn ipv4_text_reads_back_as_the_address() {
    let addr = MultiAddr::from_ip_port(IpAddr::v4(203, 0, 113, 255), 65535);
    assert_eq!(parse(&addr.ipv4_socket_text().unwrap()), addr);
    assert_eq!(addr.ipv4_socket_text().unwrap(), "203.0.113.255:65535");
}

#[test]
fn mapped_addresses_stand_for_their_ipv4_address() {
    let mapped = IpAddr::V6(0xffff_7f00_0001);
    assert_eq!(canonicalize_ip(mapped), IpAddr::v4(127, 0, 0, 1));
    assert!(is_lan_ip(mapped));
    assert!(is_lan_ip(IpAddr::v4(169, 254, 3, 4)));
    assert!(!is_lan_ip(IpAddr::v4(8, 8, 8, 8)));
    assert!(IpAddr::v4(239, 1, 1, 1).is_multicast());
    assert!(IpAddr::V6(0xfe80 << 112).is_link_local());
    assert!(IpAddr::V6(0xfd00 << 112).is_private());
    assert!(IpAddr::v4(172, 31, 255, 255).is_private());
    assert!(!IpAddr::v4(172, 32, 0, 0).is_private());
}

#[test]
fn numbers_and_bytes_have_their_usual_text() {
    assert_eq!(encode_hex(&[0x00, 0x9f, 0xff]), "009fff");
    assert_eq!(encode_decimal(0), "0");
    assert_eq!(encode_decimal(u64::MAX), u64::MAX.to_string());
    assert_eq!(PeerId::from_bytes([0xab; 32]).to_hex(), "ab".repeat(32));
}

#[test]
fn known_names_have_stable_open_wire_ids() {
    assert_eq!(KnownTransport::Quic.id(), 1);
    assert_eq!(KnownTransport::WebRtcDirect.id(), 2);
    assert_eq!(KnownReachability::Relay.id(), 1);
    assert_eq!(KnownReachability::Direct.id(), 2);
    assert_eq!(KnownReachability::Unverified.id(), 3);
    assert_eq!(KnownReachability::Lan.id(), 4);
}

#[test]
fn unknown_identifiers_round_trip_without_enum_decode_failure() {
    let record =
        TransportAddressRecord { transport: 900, reachability: 901, address: vec![1, 2, 3, 4] };
    let plain = (record.transport, record.reachability, record.address.clone());
    let bytes = postcard::to_stdvec(&plain).unwrap();
    let (transport, reachability, address) = postcard::from_bytes(&bytes).unwrap();
    let decoded = TransportAddressRecord { transport, reachability, address };

    assert_eq!(decoded, record);
    assert_eq!(decoded.decode_known().unwrap(), None);
    assert_eq!(decoded.legacy_reachability(), None);
}

#[test]
fn quic_record_round_trips() {
    let address = parse("/ip4/203.0.113.9/udp/12000/quic");
    let record = TransportAddressRecord::from_multiaddr(&address, KnownReachability::Direct)
        .unwrap()
        .unwrap();

    assert_eq!(record.transport, KnownTransport::Quic.id());
    assert_eq!(record.legacy_reachability(), Some(AddressType::Direct));
    assert_eq!(record.decode_known().unwrap(), Some(address));
}

#[test]
fn webrtc_direct_record_round_trips_independently_of_reachability() {
    let peer_id = PeerId::from_bytes([0x22; 32]);
    let address = MultiAddr::webrtc_direct(
        SocketAddr::new(IpAddr::v4(203, 0, 113, 9), 42768),
        [0x33; 32],
    )
    .with_peer_id(peer_id);
    let record = TransportAddressRecord::from_multiaddr(&address, KnownReachability::Unverified)
        .unwrap()
        .unwrap();

    assert_eq!(record.transport, KnownTransport::WebRtcDirect.id());
    assert_eq!(record.legacy_reachability(), Some(AddressType::Unverified));
    assert_eq!(record.decode_known().unwrap(), Some(address));
}

#[test]
fn declared_transport_must_match_the_encoded_multiaddress() {
    let address = parse("/ip4/203.0.113.9/udp/12000/quic");
    let mut record = TransportAddressRecord::from_multiaddr(&address, KnownReachability::Direct)
        .unwrap()
        .unwrap();
    record.transport = KnownTransport::WebRtcDirect.id();

    assert_eq!(record.decode_known().unwrap(), None);
}

#[test]
fn payloads_are_bounded_and_garbage_is_an_error() {
    let mut record = TransportAddressRecord { transport: 1, reachability: 2, address: vec![9] };
    assert!(record.is_within_wire_bounds());
    assert!(record.decode_known().is_err());
    record.address = Vec::new();
    assert!(!record.is_within_wire_bounds());
    record.address = vec![0; MAX_TRANSPORT_ADDRESS_PAYLOAD + 1];
    assert!(!record.is_within_wire_bounds());
}

#[test]
fn payloads_are_the_encoded_sockets_of_quic_addresses() {
    let v4 = MultiAddr::quic(SocketAddr::new(IpAddr::v4(203, 0, 113, 9), 12000));
    let record = TransportAddressRecord::from_multiaddr(&v4, KnownReachability::Direct)
        .unwrap()
        .unwrap();
    assert_eq!(record.address, vec![0, 203, 0, 113, 9, 0xe0, 0x5d]);

    let mut socket = SocketAddr::new(IpAddr::V6(0x2001_0db8 << 96 | 0x0102), 7);
    let plain = MultiAddr::quic(socket);
    socket.scope_id = 3;
    socket.flowinfo = 4;
    let record = TransportAddressRecord::from_multiaddr(
        &MultiAddr::quic(socket),
        KnownReachability::Direct,
    )
    .unwrap()
    .unwrap();
    assert_eq!(
        record.address,
        vec![1, 0x20, 0x01, 0x0d, 0xb8, 0, 0, 0, 0, 0, 0, 0, 0, 0, 0, 1, 2, 7]
    );
    assert_eq!(record.decode_known().unwrap(), Some(plain));
}

#[test]
fn certificates_and_owners_stand_behind_the_socket() {
    let socket = SocketAddr::new(IpAddr::v4(203, 0, 113, 9), 7);
    let owner = PeerId::from_bytes([0x22; 32]);
    let address = MultiAddr::webrtc_direct(socket, [0x33; 32]).with_peer_id(owner);
    let record = TransportAddressRecord::from_multiaddr(&address, KnownReachability::Direct)
        .unwrap()
        .unwrap();
    let mut expected = vec![0, 203, 0, 113, 9, 7, 1];
    expected.extend_from_slice(&[0x33; 32]);
    expected.push(1);
    expected.extend_from_slice(&[0x22; 32]);
    assert_eq!(record.address, expected);
    assert_eq!(record.decode_known().unwrap(), Some(address));

    let owned = MultiAddr::quic(socket).with_peer_id(owner);
    let record = TransportAddressRecord::from_multiaddr(&owned, KnownReachability::Direct)
        .unwrap()
        .unwrap();
    assert_eq!(record.decode_known().unwrap(), Some(owned));

    let trailed = TransportAddressRecord {
        transport: KnownTransport::Quic.id(),
        reachability: KnownReachability::Direct.id(),
        address: vec![0, 203, 0, 113, 9, 7, 9, 9],
    };
    assert_eq!(trailed.decode_known().unwrap(), Some(MultiAddr::quic(socket)));
}
