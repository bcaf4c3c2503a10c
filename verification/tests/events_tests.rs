use oru_node::addr::{parse_addr, NodeId};
use oru_node::events::{Event, IdentifyEvent, RelayEvent, RendezvousEvent};

#[test]
fn identify_events_wrap_into_their_variant() {
    let peer = NodeId::new(b"QmBoot".to_vec()).unwrap();
    let ev = Event::from(IdentifyEvent::Sent { peer });
    let expected = Event::Identify(IdentifyEvent::Sent {
        peer: NodeId::new(b"QmBoot".to_vec()).unwrap(),
    });
    assert_eq!(ev, expected);
}

#[test]
fn relay_events_wrap_into_their_variant() {
    assert_eq!(
        Event::from(RelayEvent::ReservationAccepted),
        Event::Relay(RelayEvent::ReservationAccepted)
    );
}

#[test]
fn rendezvous_events_wrap_into_their_variant() {
    assert_eq!(
        Event::from(RendezvousEvent::RegisterFailed),
        Event::Rendezvous(RendezvousEvent::RegisterFailed)
    );
}

#[test]
fn received_event_carries_the_observed_address() {
    let observed = parse_addr(&b"/ip4/9.9.9.9/tcp/4242".to_vec()).unwrap();
    let ev = Event::from(IdentifyEvent::Received { observed });
    match ev {
        Event::Identify(IdentifyEvent::Received { observed }) => {
            assert_eq!(observed.render(), b"/ip4/9.9.9.9/tcp/4242".to_vec());
        }
        other => panic!("wrong variant: {other:?}"),
    }
}
