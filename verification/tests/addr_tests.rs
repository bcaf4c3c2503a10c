use oru_node::addr::{local_listen_addr, parse_addr, AddrComponent, NodeId, PeerAddress};

fn parse(s: &str) -> Option<PeerAddress> {
    parse_addr(&s.as_bytes().to_vec())
}

fn round_trips(s: &str) {
    let a = parse(s).expect("should parse");
    assert_eq!(a.render(), s.as_bytes().to_vec());
}

#[test]
fn round_trip_ip4_tcp() {
    round_trips("/ip4/34.74.197.69/tcp/80");
}

#[test]
fn round_trip_full_route() {
    round_trips("/ip4/127.0.0.1/tcp/4001/p2p-circuit/p2p/QmYyQSo1c1Ym7orWxLYvCrM2EmxFTANf8wXmmE7DWjhx5N");
}

#[test]
fn round_trip_port_bounds() {
    round_trips("/ip4/0.0.0.0/tcp/0");
    round_trips("/ip4/255.255.255.255/tcp/65535");
}

#[test]
fn round_trip_empty() {
    let a = parse("").expect("empty address parses");
    assert_eq!(a.render(), Vec::<u8>::new());
    assert_eq!(a.len(), 0);
}

#[test]
fn parse_components() {
    let a = parse("/ip4/10.0.0.2/tcp/8080/p2p-circuit").expect("should parse");
    assert_eq!(
        a.parts,
        vec![
            AddrComponent::Ip4(10, 0, 0, 2),
            AddrComponent::Tcp(8080),
            AddrComponent::P2pCircuit,
        ]
    );
}

#[test]
fn parse_rejects_leading_zeros() {
    assert!(parse("/ip4/01.2.3.4/tcp/80").is_none());
    assert!(parse("/ip4/1.2.3.4/tcp/080").is_none());
}

#[test]
fn parse_rejects_out_of_range() {
    assert!(parse("/ip4/256.0.0.1/tcp/80").is_none());
    assert!(parse("/ip4/1.2.3.4/tcp/65536").is_none());
}

#[test]
fn parse_rejects_malformed() {
    assert!(parse("/").is_none());
    assert!(parse("ip4/1.2.3.4").is_none());
    assert!(parse("/ip4/1.2.3/tcp/80").is_none());
    assert!(parse("/ip4/1.2.3.4.5/tcp/80").is_none());
    assert!(parse("/udp/1000").is_none());
    assert!(parse("/tcp/").is_none());
    assert!(parse("/p2p/").is_none());
    assert!(parse("/p2p/0invalid").is_none());
    assert!(parse("/p2p/has l space").is_none());
}

#[test]
fn node_id_accepts_base58_only() {
    assert!(NodeId::new(b"QmBoot".to_vec()).is_some());
    assert!(NodeId::new(Vec::new()).is_none());
    assert!(NodeId::new(b"0".to_vec()).is_none());
    assert!(NodeId::new(b"O".to_vec()).is_none());
    assert!(NodeId::new(b"I".to_vec()).is_none());
    assert!(NodeId::new(b"l".to_vec()).is_none());
    assert!(NodeId::new(b"QmB?ot".to_vec()).is_none());
}

#[test]
fn built_addresses_parse_back() {
    let base = parse("/ip4/198.51.100.7/tcp/443").unwrap();
    let id = NodeId::new(b"QmPeer9".to_vec()).unwrap();
    let route = base.with_circuit().with_peer(&id);
    let reparsed = parse_addr(&route.render()).expect("rendered route parses back");
    assert_eq!(reparsed, route);
}

#[test]
fn listen_addr_uses_preferred_port() {
    assert_eq!(local_listen_addr(Some(5555)).render(), b"/ip4/0.0.0.0/tcp/5555".to_vec());
    assert_eq!(local_listen_addr(None).render(), b"/ip4/0.0.0.0/tcp/0".to_vec());
}

#[test]
fn address_extension_builds_dial_routes() {
    let base = parse("/ip4/34.74.197.69/tcp/80").unwrap();
    let id = NodeId::new(b"QmPeer1".to_vec()).unwrap();
    let route = base.with_circuit().with_peer(&id);
    assert_eq!(route.render(), b"/ip4/34.74.197.69/tcp/80/p2p-circuit/p2p/QmPeer1".to_vec());
    let mut pushed = base.duplicate();
    pushed.push_peer(&id);
    assert_eq!(pushed.render(), b"/ip4/34.74.197.69/tcp/80/p2p/QmPeer1".to_vec());
}
