use oru_node::addr::{parse_addr, NodeId, PeerAddress};
use oru_node::events::{Action, Event, IdentifyEvent, RelayEvent};
use oru_node::node::{ConnectError, Node};

fn id(text: &str) -> NodeId {
    NodeId::new(text.as_bytes().to_vec()).expect("valid base58 id")
}

fn addr(text: &str) -> PeerAddress {
    parse_addr(&text.as_bytes().to_vec()).expect("valid address")
}

const INTRODUCER: &str = "/ip4/34.74.197.69/tcp/80";

#[test]
fn fresh_node_has_valid_base58_id() {
    let node = Node::new();
    let bytes = node.get_id().bytes().clone();
    assert!(!bytes.is_empty());
    assert!(NodeId::new(bytes).is_some());
}

#[test]
fn fresh_node_exposes_public_key() {
    let node = Node::new();
    let _ = node.public_key();
}

#[test]
fn connect_collects_each_fact_once_despite_duplicates() {
    let node = Node::new();
    let events = vec![
        Event::Identify(IdentifyEvent::Sent { peer: id("QmBoot") }),
        Event::Identify(IdentifyEvent::Received { observed: addr("/ip4/9.9.9.9/tcp/4242") }),
        Event::Identify(IdentifyEvent::Sent { peer: id("QmSecond") }),
        Event::Identify(IdentifyEvent::Received { observed: addr("/ip4/8.8.8.8/tcp/1") }),
    ];
    let (res, actions) = node.connect(&INTRODUCER.as_bytes().to_vec(), Some(7777), &events);
    let conn = res.expect("connect completes after first Sent and first Received");
    assert_eq!(conn.rendezvous_node_id(), &id("QmBoot"));
    assert_eq!(
        conn.rendezvous_node_addr().render(),
        b"/ip4/34.74.197.69/tcp/80/p2p/QmBoot".to_vec()
    );
    assert_eq!(
        conn.observed_addr().as_ref().map(|a| a.render()),
        Some(b"/ip4/9.9.9.9/tcp/4242".to_vec())
    );
    assert_eq!(
        actions,
        vec![
            Action::Listen(addr("/ip4/0.0.0.0/tcp/7777")),
            Action::Dial(addr(INTRODUCER)),
        ]
    );
}

#[test]
fn connect_accepts_facts_in_either_order() {
    let node = Node::new();
    let events = vec![
        Event::Identify(IdentifyEvent::Received { observed: addr("/ip4/9.9.9.9/tcp/4242") }),
        Event::Identify(IdentifyEvent::Sent { peer: id("QmBoot") }),
    ];
    let (res, _) = node.connect(&INTRODUCER.as_bytes().to_vec(), None, &events);
    let conn = res.expect("both orders complete");
    assert_eq!(conn.rendezvous_node_id(), &id("QmBoot"));
}

#[test]
fn connect_fails_fatally_on_empty_stream() {
    let node = Node::new();
    let events: Vec<Event> = Vec::new();
    let (res, actions) = node.connect(&INTRODUCER.as_bytes().to_vec(), None, &events);
    assert_eq!(res.err(), Some(ConnectError::StreamEnded));
    assert_eq!(actions.len(), 2);
}

#[test]
fn connect_fails_on_half_finished_exchange() {
    let node = Node::new();
    let events = vec![Event::Identify(IdentifyEvent::Sent { peer: id("QmBoot") })];
    let (res, _) = node.connect(&INTRODUCER.as_bytes().to_vec(), None, &events);
    assert_eq!(res.err(), Some(ConnectError::StreamEnded));
}

#[test]
fn connect_is_strict_about_unexpected_events() {
    let node = Node::new();
    let events = vec![Event::Relay(RelayEvent::ReservationAccepted)];
    let (res, _) = node.connect(&INTRODUCER.as_bytes().to_vec(), None, &events);
    assert_eq!(res.err(), Some(ConnectError::UnexpectedEvent));
}

#[test]
fn connect_rejects_malformed_introducer_address() {
    let node = Node::new();
    let events: Vec<Event> = Vec::new();
    let (res, actions) = node.connect(&b"not an address".to_vec(), None, &events);
    assert_eq!(res.err(), Some(ConnectError::InvalidAddress));
    assert!(actions.is_empty());
}

#[test]
fn reservation_wait_accepts() {
    let node = Node::new();
    let events = vec![Event::Relay(RelayEvent::ReservationAccepted)];
    assert_eq!(node.wait_for_reservation(&events, 0), (true, 1));
}

#[test]
fn reservation_wait_reports_failure() {
    let node = Node::new();
    let events = vec![Event::Relay(RelayEvent::ReservationFailed)];
    assert_eq!(node.wait_for_reservation(&events, 0), (false, 1));
}

#[test]
fn reservation_wait_is_lenient_about_unrelated_events() {
    let node = Node::new();
    let events = vec![
        Event::Other,
        Event::Dcutr,
        Event::Relay(RelayEvent::Other),
        Event::Relay(RelayEvent::ReservationAccepted),
        Event::Other,
    ];
    assert_eq!(node.wait_for_reservation(&events, 0), (true, 4));
}

#[test]
fn reservation_wait_fails_when_stream_ends() {
    let node = Node::new();
    let events: Vec<Event> = vec![Event::Other];
    assert_eq!(node.wait_for_reservation(&events, 0), (false, 1));
    assert_eq!(node.wait_for_reservation(&Vec::new(), 0), (false, 0));
}
