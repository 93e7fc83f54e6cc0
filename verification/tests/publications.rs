//! Owner-signed publications and the records that are made of them.

use saorsa_core::address::{IpAddr, MultiAddr};
use saorsa_core::address_text::{parse_address, AddressText};
use saorsa_core::authority::AddressAuthority;
use saorsa_core::client_routing::{
    apply_lookup_report_winners, build_witnessed_close_group, compare_peer_distance,
    compute_winner,
    may_replace_owner_view, merge_witnessed_node, prefer_lookup_record, SubjectReports,
};
use saorsa_core::identity::{peer_id_from_public_key, NodeIdentity, PUBLIC_KEY_BYTES};
use saorsa_core::peer_id::PeerId;
use saorsa_core::peer_record::{
    dht_node_publish_seq, encode_publish_seq_distance, AddressType, DHTNode,
};
use saorsa_core::record_bundle::{decode_record_bundle, encode_record_bundle};
use saorsa_core::signed_address::{SignedAddressRecord, MAX_SIGNED_ADDRESS_BYTES};
use saorsa_core::table::Table;
use saorsa_core::transport_address::{
    KnownReachability, TransportAddressRecord, MAX_TRANSPORT_ADDRESS_PAYLOAD,
    MAX_TRANSPORT_ADDRESS_RECORDS,
};

fn parse(text: &str) -> MultiAddr {
    match parse_address(text) {
        AddressText::Address(address) => address,
        _ => panic!("no address: {text}"),
    }
}

fn opaque() -> TransportAddressRecord {
    TransportAddressRecord { transport: 900, reachability: 901, address: vec![1, 2, 3] }
}

fn record(identity: &NodeIdentity, sequence: u64) -> SignedAddressRecord {
    SignedAddressRecord::sign(identity, sequence, vec![opaque()]).unwrap()
}

fn quic_record(address: &str) -> TransportAddressRecord {
    TransportAddressRecord::from_multiaddr(&parse(address), KnownReachability::Direct)
        .unwrap()
        .unwrap()
}

#[test]
fn signatures_bind_owner_sequence_and_opaque_future_records() {
    let identity = NodeIdentity::generate().unwrap();
    let original = record(&identity, 10);
    let encoded = original.encode().unwrap();
    let verified = SignedAddressRecord::decode(&encoded).unwrap().verify().unwrap();
    assert_eq!(verified.owner(), identity.peer_id());
    assert_eq!(verified.signed().encode().unwrap(), encoded);
    let owner = identity.peer_id();
    let key = original.public_key().clone();
    let signature = original.signature().clone();
    let mut forged_signature = signature.clone();
    forged_signature[0] ^= 1;
    let mut changed = opaque();
    changed.address[0] ^= 1;
    let mutations = vec![
        SignedAddressRecord::from_wire(
            PeerId::from_bytes([7; 32]),
            10,
            vec![opaque()],
            key.clone(),
            signature.clone(),
        ),
        SignedAddressRecord::from_wire(
            owner,
            u64::MAX,
            vec![opaque()],
            key.clone(),
            signature.clone(),
        ),
        SignedAddressRecord::from_wire(owner, 10, vec![changed], key.clone(), signature.clone()),
        SignedAddressRecord::from_wire(owner, 10, vec![opaque()], key.clone(), forged_signature),
    ];
    for changed in mutations {
        assert!(changed.verify().is_err());
    }
    assert!(SignedAddressRecord::from_wire(owner, 10, vec![opaque()], key, signature)
        .verify()
        .is_ok());
}

#[test]
fn bounded_decode_and_nonempty_rules_apply_before_signature_verification() {
    let identity = NodeIdentity::generate().unwrap();
    assert!(SignedAddressRecord::sign(&identity, 1, Vec::new()).is_err());
    let good = record(&identity, 1);
    let with = |records: Vec<TransportAddressRecord>| {
        SignedAddressRecord::from_wire(
            identity.peer_id(),
            1,
            records,
            good.public_key().clone(),
            good.signature().clone(),
        )
    };
    let malformed = with((0..MAX_TRANSPORT_ADDRESS_RECORDS + 1).map(|_| opaque()).collect());
    assert!(SignedAddressRecord::decode(&malformed.encode().unwrap()).is_err());
    let mut long = opaque();
    long.address = vec![1; MAX_TRANSPORT_ADDRESS_PAYLOAD + 1];
    let malformed = with(vec![long]);
    assert!(SignedAddressRecord::decode(&malformed.encode().unwrap()).is_err());
    let bytes = encode_record_bundle(&[record(&identity, 1)]).unwrap();
    assert_eq!(decode_record_bundle(&bytes, 1).unwrap().len(), 1);
    assert!(decode_record_bundle(&bytes, 0).is_err());
    assert!(decode_record_bundle(&bytes[..bytes.len() - 1], 1).is_err());
}

#[test]
fn deserialization_cannot_grant_authority_or_override_a_verified_view() {
    let identity = NodeIdentity::generate().unwrap();
    let signed = record(&identity, 10).verify().unwrap();
    let known = signed.peer_record(1);
    // What a wire record carries is everything but the authority.
    let mut hint = DHTNode {
        peer_id: known.peer_id,
        addresses: known.addresses.clone(),
        address_types: known.address_types.clone(),
        distance: known.distance.clone(),
        reliability: known.reliability,
        address_authority: None,
    };
    hint.distance = encode_publish_seq_distance(u64::MAX);
    hint.addresses.push(parse("/ip4/8.8.8.8/udp/1/quic"));
    assert_eq!(dht_node_publish_seq(&hint), 0);
    assert!(!may_replace_owner_view(&known, &hint));
    let mut merged = known.clone();
    merged.merge_from(hint.clone());
    assert!(merged.addresses.is_empty());
    let mut reports = SubjectReports::new();
    reports.insert(known.peer_id, hint);
    reports.insert(PeerId::from_bytes([9; 32]), known.clone());
    let (_, winner) = compute_winner(&known.peer_id, &reports).unwrap();
    assert_eq!(dht_node_publish_seq(&winner), 10);
}

fn node(id: u8, address: &str) -> DHTNode {
    DHTNode {
        peer_id: PeerId::from_bytes([id; 32]),
        addresses: vec![parse(address)],
        address_types: vec![AddressType::Unverified],
        distance: None,
        reliability: 5,
        address_authority: None,
    }
}

#[test]
fn reports_choose_consensus_then_authenticated_self_report() {
    let subject = PeerId::from_bytes([0; 32]);
    let good = node(0, "/ip4/198.51.100.1/udp/9000/quic");
    let bad = node(0, "/ip4/198.51.100.2/udp/9000/quic");
    let mut reports = SubjectReports::new();
    reports.insert(PeerId::from_bytes([1; 32]), bad.clone());
    reports.insert(PeerId::from_bytes([2; 32]), good.clone());
    reports.insert(PeerId::from_bytes([3; 32]), good.clone());
    assert_eq!(compute_winner(&subject, &reports).unwrap().1.addresses, good.addresses);
    reports.insert(subject, bad.clone());
    assert_eq!(compute_winner(&subject, &reports).unwrap().1.addresses, bad.addresses);
    let mut subject_reports = Table::new();
    subject_reports.insert(subject, reports);
    let result = apply_lookup_report_winners(vec![good], &subject_reports, &[0; 32], 1);
    assert_eq!(result[0].addresses, bad.addresses);
}

#[test]
fn witnesses_preserve_native_only_and_addressless_peers() {
    let responder = node(2, "/ip4/198.51.100.2/udp/9000/quic");
    let mut closer = node(1, "/ip4/198.51.100.1/udp/9000/quic");
    closer.addresses.clear();
    closer.address_types.clear();
    let group = build_witnessed_close_group(
        &[0; 32],
        1,
        2,
        vec![responder.clone()],
        vec![(responder.peer_id, vec![closer.clone(), closer])],
    );
    assert_eq!(group.responder_views[0].closest.len(), 2);
    assert!(group.responder_views[0].closest[0].addresses.is_empty());
    assert_eq!(group.responder_views[0].closest[1].peer_id, responder.peer_id);
}

#[test]
fn paired_lookup_keeps_legacy_subjects_and_prefers_v2_in_either_arrival_order() {
    let identity = NodeIdentity::generate().unwrap();
    let owner = identity.peer_id();
    let proof = SignedAddressRecord::sign(
        &identity,
        1,
        vec![quic_record("/ip4/9.9.9.9/udp/9000/quic")],
    )
    .unwrap()
    .verify()
    .unwrap();
    let mut legacy = proof.peer_record(1);
    legacy.addresses = vec![parse("/ip4/1.1.1.1/udp/9000/quic")];
    legacy.address_authority = Some(AddressAuthority::AuthenticatedOwner(u64::MAX));
    let mut legacy_only = legacy.clone();
    legacy_only.peer_id = PeerId::from_bytes([0x33; 32]);
    legacy_only.address_authority = None;
    for v2_first in [false, true] {
        let mut replies = vec![
            vec![legacy.clone(), legacy_only.clone()],
            vec![proof.peer_record(1)],
        ];
        if v2_first {
            replies.reverse();
        }
        let mut nodes: Table<PeerId, DHTNode> = Table::new();
        for found in replies.into_iter().flatten() {
            merge_witnessed_node(&mut nodes, found);
        }
        assert_eq!(nodes.len(), 2);
        assert_eq!(
            nodes.get(&owner).unwrap().addresses,
            proof.peer_record(1).addresses
        );
        assert!(nodes.contains(&legacy_only.peer_id));
    }
    // An empty reply does not erase legacy-only subjects.
    let mut nodes: Table<PeerId, DHTNode> = Table::new();
    merge_witnessed_node(&mut nodes, legacy_only);
    assert_eq!(nodes.len(), 1);
}

#[test]
fn signed_publications_outrank_connections_whatever_the_sequence() {
    let identity = NodeIdentity::generate().unwrap();
    let signed = record(&identity, 1).verify().unwrap().peer_record(0);
    let mut direct = signed.clone();
    direct.address_authority = Some(AddressAuthority::AuthenticatedOwner(u64::MAX));
    assert!(prefer_lookup_record(&signed, &direct));
    assert!(!prefer_lookup_record(&direct, &signed));
    assert!(!may_replace_owner_view(&signed, &direct));
    assert!(may_replace_owner_view(&direct, &signed));
}

#[test]
fn typed_addresses_are_tagged_and_sorted_by_priority() {
    let mut peer = node(1, "/ip4/198.51.100.1/udp/9000/quic");
    peer.addresses.push(MultiAddr::from_ip_port(IpAddr::v4(10, 0, 0, 1), 1));
    peer.addresses.push(MultiAddr::from_ip_port(IpAddr::v4(198, 51, 100, 3), 2));
    peer.address_types = vec![AddressType::Unverified, AddressType::Relay, AddressType::Relay];
    let tags: Vec<AddressType> = peer.typed_addresses().into_iter().map(|t| t.1).collect();
    assert_eq!(tags, vec![AddressType::Unverified, AddressType::Lan, AddressType::Relay]);
    assert_eq!(peer.addresses_by_priority()[0], peer.addresses[2]);
    assert_eq!(peer.addresses_by_priority()[2], peer.addresses[1]);
    let mut other = node(1, "/ip4/198.51.100.1/udp/9000/quic");
    other.address_types = vec![AddressType::Direct];
    peer.merge_from(other);
    assert_eq!(
        peer.address_types,
        vec![AddressType::Relay, AddressType::Direct, AddressType::Lan]
    );
    assert_eq!(encode_publish_seq_distance(0), None);
    assert_eq!(
        encode_publish_seq_distance(258).unwrap(),
        [b"PUBSEQ01".to_vec(), vec![0, 0, 0, 0, 0, 0, 1, 2]].concat()
    );
}

#[test]
fn refused_publications_name_their_fault() {
    let identity = NodeIdentity::generate().unwrap();
    let sign = |sequence, records| SignedAddressRecord::sign(&identity, sequence, records);
    let fault = |sequence, records| sign(sequence, records).unwrap_err();
    assert_eq!(fault(0, vec![opaque()]), "invalid address record sequence or cardinality");
    let mut empty = opaque();
    empty.address = Vec::new();
    assert_eq!(fault(1, vec![empty]), "address record payload exceeds bounds");
    let unspecified = TransportAddressRecord::from_multiaddr(
        &MultiAddr::from_ip_port(IpAddr::v4(0, 0, 0, 0), 1),
        KnownReachability::Direct,
    )
    .unwrap()
    .unwrap();
    assert_eq!(fault(1, vec![unspecified]), "address is not a dialable destination");
    let bound = parse("/ip4/9.9.9.9/udp/9000/quic").with_peer_id(PeerId::from_bytes([5; 32]));
    let foreign = TransportAddressRecord::from_multiaddr(&bound, KnownReachability::Direct)
        .unwrap()
        .unwrap();
    assert_eq!(fault(1, vec![foreign]), "address owner mismatch");
    let mut mislabelled = quic_record("/ip4/9.9.9.9/udp/9000/quic");
    mislabelled.transport = 2;
    assert_eq!(fault(1, vec![mislabelled]), "address does not match transport identifier");
    let good = record(&identity, 1);
    let other = NodeIdentity::generate().unwrap();
    let stolen = SignedAddressRecord::from_wire(
        identity.peer_id(),
        1,
        vec![opaque()],
        other.public_key(),
        good.signature().clone(),
    );
    assert_eq!(stolen.verify().unwrap_err(), "address signing key does not match owner");
}

#[test]
fn bundles_read_back_as_their_records() {
    let identity = NodeIdentity::generate().unwrap();
    let records = [record(&identity, 1), record(&identity, 2)];
    let bytes = encode_record_bundle(&records).unwrap();
    let decoded = decode_record_bundle(&bytes, 2).unwrap();
    assert_eq!(decoded[0], records[0]);
    assert_eq!(decoded[1], records[1]);
    let length = records[0].encode().unwrap().len() as u32;
    assert_eq!(bytes[..4], length.to_be_bytes());
}

#[test]
fn identities_are_the_fingerprints_of_their_keys() {
    let identity = NodeIdentity::generate().unwrap();
    let key = identity.public_key();
    assert_eq!(key.len(), PUBLIC_KEY_BYTES);
    assert_eq!(peer_id_from_public_key(&key).unwrap(), identity.peer_id());
    assert!(peer_id_from_public_key(&key[1..]).is_err());
    let fingerprint = saorsa_transport::fingerprint_public_key_bytes(&key).unwrap();
    assert_eq!(*identity.peer_id().as_bytes(), fingerprint);
    assert_ne!(NodeIdentity::generate().unwrap().peer_id(), identity.peer_id());
}

#[test]
fn the_largest_publication_fits_the_envelope() {
    let identity = NodeIdentity::generate().unwrap();
    let records = (0..MAX_TRANSPORT_ADDRESS_RECORDS)
        .map(|_| TransportAddressRecord {
            transport: u16::MAX,
            reachability: u16::MAX,
            address: vec![7; MAX_TRANSPORT_ADDRESS_PAYLOAD],
        })
        .collect();
    let signed = SignedAddressRecord::sign(&identity, u64::MAX, records).unwrap();
    let bytes = signed.encode().unwrap();
    // Owner, sequence, four lengths and the records, each behind two numbers.
    assert_eq!(bytes.len(), 32 + 10 + 1 + 16 * (3 + 3 + 2 + 2048) + 2 + 1952 + 2 + 3309);
    assert!(bytes.len() <= MAX_SIGNED_ADDRESS_BYTES);
    let read = SignedAddressRecord::decode(&bytes).unwrap();
    assert_eq!(read, signed);
    assert!(read.verify().is_ok());
    let bundle = encode_record_bundle(&[signed]).unwrap();
    assert_eq!(decode_record_bundle(&bundle, 1).unwrap(), vec![read]);
}

#[test]
fn publications_stand_beside_quic_information() {
    let identity = NodeIdentity::generate().unwrap();
    let quic = quic_record("203.0.113.9:9000");
    let publication = SignedAddressRecord::sign(&identity, 10, vec![quic]).unwrap();
    let publication = publication.verify().unwrap();
    let own = AddressAuthority::with_publication(10, publication.clone());
    assert!(matches!(own, AddressAuthority::Signed(_)));
    assert_eq!(own.quic_sequence(), 10);
    let combined = AddressAuthority::with_publication(12, publication.clone());
    assert!(matches!(combined, AddressAuthority::Combined { .. }));
    assert_eq!(combined.quic_sequence(), 12);
    assert_eq!(combined.publication(), Some(&publication));
}

#[test]
fn peers_are_compared_by_distance() {
    let near = PeerId::from_bytes([1; 32]);
    let far = PeerId::from_bytes([2; 32]);
    let key = [0; 32];
    assert!(compare_peer_distance(&near, &far, &key).is_lt());
    assert!(compare_peer_distance(&far, &near, &key).is_gt());
    assert!(compare_peer_distance(&near, &near, &key).is_eq());
    assert!(compare_peer_distance(&near, &far, far.to_bytes()).is_gt());
}

#[test]
fn reachability_classes_carry_the_address_types() {
    for (class, kind) in [
        (KnownReachability::Relay, AddressType::Relay),
        (KnownReachability::Direct, AddressType::Direct),
        (KnownReachability::Unverified, AddressType::Unverified),
        (KnownReachability::Lan, AddressType::Lan),
    ] {
        assert_eq!(KnownReachability::from_legacy(kind), class);
        assert_eq!(class.into_legacy(), kind);
    }
}

#[test]
fn merging_the_same_record_again_changes_nothing() {
    let mut held = node(1, "/ip4/198.51.100.1/udp/9000/quic");
    held.addresses.push(parse("/ip4/198.51.100.2/udp/9000/quic"));
    held.address_types.push(AddressType::Unverified);
    let mut hint = node(1, "/ip4/198.51.100.3/udp/9000/quic");
    hint.addresses.push(parse("/ip4/198.51.100.2/udp/9000/quic"));
    hint.address_types.push(AddressType::Relay);
    hint.reliability = 9;
    held.merge_from(hint.clone());
    let once = held.clone();
    assert_eq!(once.address_types[0], AddressType::Relay);
    assert_eq!(once.addresses.len(), 3);
    held.merge_from(hint);
    assert_eq!(held.addresses, once.addresses);
    assert_eq!(held.address_types, once.address_types);
    assert_eq!(held.reliability, once.reliability);
}

#[test]
fn records_beyond_the_limits_are_written_but_not_read() {
    let identity = NodeIdentity::generate().unwrap();
    let good = record(&identity, 1);
    let mut long = opaque();
    long.address = vec![1; MAX_TRANSPORT_ADDRESS_PAYLOAD + 1];
    let beyond = SignedAddressRecord::from_wire(
        identity.peer_id(),
        1,
        vec![long],
        good.public_key().clone(),
        good.signature().clone(),
    );
    let bytes = beyond.encode().unwrap();
    assert_eq!(SignedAddressRecord::decode(&bytes).unwrap_err(), "Serde Deserialization Error");
    let bytes = good.encode().unwrap();
    assert_eq!(
        SignedAddressRecord::decode(&bytes[..bytes.len() - 1]).unwrap_err(),
        "Hit the end of buffer, expected more data"
    );
}
