use oru_node::addr::{parse_addr, NodeId, PeerAddress};
use oru_node::connection::{Connection, HandleError};
use oru_node::events::{
    rendezvous_namespace, Action, Event, IdentifyEvent, Registration, RelayEvent, RendezvousEvent,
};
use oru_node::node::Node;

fn id(text: &str) -> NodeId {
    NodeId::new(text.as_bytes().to_vec()).expect("valid base58 id")
}

fn addr(text: &str) -> PeerAddress {
    parse_addr(&text.as_bytes().to_vec()).expect("valid address")
}

fn registration(peer: &str) -> Registration {
    Registration { peer: id(peer), namespace: rendezvous_namespace(), expiry: 7200 }
}

fn rendezvous_connection() -> Connection {
    Connection::new(Node::new(), id("QmBoot"), addr("/ip4/34.74.197.69/tcp/80"))
}

fn discovered(regs: Vec<Registration>) -> Event {
    Event::Rendezvous(RendezvousEvent::Discovered { registrations: regs })
}

#[test]
fn namespace_is_fixed() {
    assert_eq!(rendezvous_namespace(), b"oru".to_vec());
}

#[test]
fn handle_with_no_events_only_discovers() {
    let conn = rendezvous_connection();
    let (res, actions) = conn.handle(&Vec::new());
    assert!(res.is_ok());
    assert_eq!(actions, vec![Action::Discover(id("QmBoot"))]);
}

#[test]
fn empty_discovery_bootstraps_self() {
    let conn = rendezvous_connection();
    let events = vec![
        discovered(Vec::new()),
        Event::Other,
        Event::Relay(RelayEvent::ReservationAccepted),
        Event::Dcutr,
    ];
    let (res, actions) = conn.handle(&events);
    assert!(res.is_ok());
    assert_eq!(
        actions,
        vec![
            Action::Discover(id("QmBoot")),
            Action::RelayListen(addr("/ip4/34.74.197.69/tcp/80/p2p-circuit")),
            Action::Register(id("QmBoot")),
        ]
    );
    let listens = actions
        .iter()
        .filter(|a| matches!(a, Action::RelayListen(_)))
        .count();
    let registers = actions.iter().filter(|a| matches!(a, Action::Register(_))).count();
    assert_eq!(listens, 1);
    assert_eq!(registers, 1);
}

#[test]
fn discovery_with_peers_dials_each() {
    let conn = rendezvous_connection();
    let events = vec![discovered(vec![
        registration("QmPeer1"),
        registration("QmPeer2"),
        registration("QmPeer3"),
    ])];
    let (res, actions) = conn.handle(&events);
    assert!(res.is_ok());
    assert_eq!(
        actions,
        vec![
            Action::Discover(id("QmBoot")),
            Action::Dial(addr("/ip4/34.74.197.69/tcp/80/p2p-circuit/p2p/QmPeer1")),
            Action::Dial(addr("/ip4/34.74.197.69/tcp/80/p2p-circuit/p2p/QmPeer2")),
            Action::Dial(addr("/ip4/34.74.197.69/tcp/80/p2p-circuit/p2p/QmPeer3")),
        ]
    );
    let dials = actions.iter().filter(|a| matches!(a, Action::Dial(_))).count();
    assert_eq!(dials, 3);
}

#[test]
fn reservation_failure_is_fatal_for_handle() {
    let conn = rendezvous_connection();
    let events = vec![discovered(Vec::new()), Event::Relay(RelayEvent::ReservationFailed)];
    let (res, actions) = conn.handle(&events);
    assert_eq!(res.err(), Some(HandleError::ReservationFailed));
    assert_eq!(
        actions,
        vec![
            Action::Discover(id("QmBoot")),
            Action::RelayListen(addr("/ip4/34.74.197.69/tcp/80/p2p-circuit")),
        ]
    );
}

#[test]
fn stream_end_while_awaiting_reservation_is_fatal() {
    let conn = rendezvous_connection();
    let events = vec![discovered(Vec::new()), Event::Other];
    let (res, _) = conn.handle(&events);
    assert_eq!(res.err(), Some(HandleError::ReservationFailed));
}

#[test]
fn registration_failure_is_fatal_for_handle() {
    let conn = rendezvous_connection();
    let events = vec![Event::Rendezvous(RendezvousEvent::RegisterFailed)];
    let (res, actions) = conn.handle(&events);
    assert_eq!(res.err(), Some(HandleError::RegistrationFailed));
    assert_eq!(actions, vec![Action::Discover(id("QmBoot"))]);
}

#[test]
fn unrelated_events_are_surfaced_and_skipped() {
    let conn = rendezvous_connection();
    let events = vec![
        Event::Other,
        Event::Dcutr,
        Event::Identify(IdentifyEvent::Other),
        Event::Rendezvous(RendezvousEvent::Other),
        Event::Relay(RelayEvent::Other),
    ];
    let (res, actions) = conn.handle(&events);
    assert!(res.is_ok());
    assert_eq!(actions.len(), 1);
}

#[test]
fn connection_owns_node_exclusively_and_releases_it() {
    let node = Node::new();
    let node_id = node.get_id().bytes().clone();
    let conn = Connection::new(node, id("QmBoot"), addr("/ip4/34.74.197.69/tcp/80"));
    let released = conn.into_node();
    assert_eq!(released.get_id().bytes(), &node_id);
}
