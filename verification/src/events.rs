//! The unified protocol event stream and the requests the orchestration
//! issues in reaction to it. Each protocol capability's events arrive wrapped
//! in one variant of a closed tagged union; the orchestration reads only the
//! payload fields modelled here.

use vstd::prelude::*;

use crate::addr::{Comp, NodeId, PeerAddress};

verus! {

/// An address-exchange protocol event.
#[derive(Debug, PartialEq, Eq)]
pub enum IdentifyEvent {
    /// We told the remote peer our address; carries the remote's identifier.
    Sent { peer: NodeId },
    /// The remote told us our externally observed address.
    Received { observed: PeerAddress },
    /// Any other address-exchange event.
    Other,
}

/// A relay-client protocol event.
#[derive(Debug, PartialEq, Eq)]
pub enum RelayEvent {
    /// Our relay-reservation request was accepted.
    ReservationAccepted,
    /// Our relay-reservation request was rejected.
    ReservationFailed,
    /// Any other relay-client event.
    Other,
}

/// One registration returned by rendezvous discovery.
#[derive(Debug, PartialEq, Eq)]
pub struct Registration {
    /// The registered peer's identifier.
    pub peer: NodeId,
    /// The namespace the peer registered under.
    pub namespace: Vec<u8>,
    /// Remaining validity of the registration, in seconds.
    pub expiry: u64,
}

/// A rendezvous-client protocol event.
#[derive(Debug, PartialEq, Eq)]
pub enum RendezvousEvent {
    /// A discovery request completed with the given registrations.
    Discovered { registrations: Vec<Registration> },
    /// Our own registration was rejected.
    RegisterFailed,
    /// Any other rendezvous-client event.
    Other,
}

/// One event of the single multiplexed stream the orchestration reacts to.
#[derive(Debug, PartialEq, Eq)]
pub enum Event {
    Identify(IdentifyEvent),
    Relay(RelayEvent),
    /// A connection-upgrade event; observed only for visibility.
    Dcutr,
    Rendezvous(RendezvousEvent),
    /// A transport-level event outside the four protocol capabilities.
    Other,
}

/// A request the orchestration asks the transport to perform.
#[derive(Debug, PartialEq, Eq)]
pub enum Action {
    /// Listen on the given local address.
    Listen(PeerAddress),
    /// Ask the rendezvous peer for everything registered with it.
    Discover(NodeId),
    /// Open a listener on the given relayed-circuit address.
    RelayListen(PeerAddress),
    /// Register this node with the rendezvous peer.
    Register(NodeId),
    /// Dial the given address.
    Dial(PeerAddress),
}

// ---------------------------------------------------------------------------
// The mathematical models
// ---------------------------------------------------------------------------

pub enum IdentifyModel {
    Sent(Seq<u8>),
    Received(Seq<Comp>),
    Other,
}

pub enum RelayModel {
    ReservationAccepted,
    ReservationFailed,
    Other,
}

pub struct RegistrationModel {
    pub peer: Seq<u8>,
    pub namespace: Seq<u8>,
    pub expiry: int,
}

pub enum RendezvousModel {
    Discovered(Seq<RegistrationModel>),
    RegisterFailed,
    Other,
}

pub enum EventModel {
    Identify(IdentifyModel),
    Relay(RelayModel),
    Dcutr,
    Rendezvous(RendezvousModel),
    Other,
}

pub enum ActionModel {
    Listen(Seq<Comp>),
    Discover(Seq<u8>),
    RelayListen(Seq<Comp>),
    Register(Seq<u8>),
    Dial(Seq<Comp>),
}

impl View for Registration {
    type V = RegistrationModel;

    open spec fn view(&self) -> RegistrationModel {
        RegistrationModel { peer: self.peer@, namespace: self.namespace@, expiry: self.expiry as int }
    }
}

/// The model of a registration sequence.
pub open spec fn regs_view(rs: Seq<Registration>) -> Seq<RegistrationModel> {
    rs.map(|i: int, r: Registration| r@)
}

impl View for Event {
    type V = EventModel;

    open spec fn view(&self) -> EventModel {
        match self {
            Event::Identify(IdentifyEvent::Sent { peer }) => EventModel::Identify(
                IdentifyModel::Sent(peer@),
            ),
            Event::Identify(IdentifyEvent::Received { observed }) => EventModel::Identify(
                IdentifyModel::Received(observed@),
            ),
            Event::Identify(IdentifyEvent::Other) => EventModel::Identify(IdentifyModel::Other),
            Event::Relay(RelayEvent::ReservationAccepted) => EventModel::Relay(
                RelayModel::ReservationAccepted,
            ),
            Event::Relay(RelayEvent::ReservationFailed) => EventModel::Relay(
                RelayModel::ReservationFailed,
            ),
            Event::Relay(RelayEvent::Other) => EventModel::Relay(RelayModel::Other),
            Event::Dcutr => EventModel::Dcutr,
            Event::Rendezvous(RendezvousEvent::Discovered { registrations }) => EventModel::Rendezvous(
                RendezvousModel::Discovered(regs_view(registrations@)),
            ),
            Event::Rendezvous(RendezvousEvent::RegisterFailed) => EventModel::Rendezvous(
                RendezvousModel::RegisterFailed,
            ),
            Event::Rendezvous(RendezvousEvent::Other) => EventModel::Rendezvous(
                RendezvousModel::Other,
            ),
            Event::Other => EventModel::Other,
        }
    }
}

impl View for Action {
    type V = ActionModel;

    open spec fn view(&self) -> ActionModel {
        match self {
            Action::Listen(a) => ActionModel::Listen(a@),
            Action::Discover(id) => ActionModel::Discover(id@),
            Action::RelayListen(a) => ActionModel::RelayListen(a@),
            Action::Register(id) => ActionModel::Register(id@),
            Action::Dial(a) => ActionModel::Dial(a@),
        }
    }
}

/// The fixed rendezvous namespace every registration uses.
pub open spec fn namespace_model() -> Seq<u8> {
    seq![111u8, 114u8, 117u8]
}

/// The fixed rendezvous namespace, as bytes ("oru").
pub fn rendezvous_namespace() -> (r: Vec<u8>)
    ensures
        r@ == namespace_model(),
{
    let mut v: Vec<u8> = Vec::new();
    v.push(111);
    v.push(114);
    v.push(117);
    proof {
        assert(v@ =~= namespace_model());
    }
    v
}

/// The model of an event sequence.
pub open spec fn events_view(es: Seq<Event>) -> Seq<EventModel> {
    es.map(|i: int, e: Event| e@)
}

/// The model of an action sequence.
pub open spec fn actions_view(acts: Seq<Action>) -> Seq<ActionModel> {
    acts.map(|i: int, a: Action| a@)
}

pub proof fn lemma_actions_view_push(acts: Seq<Action>, a: Action)
    ensures
        actions_view(acts.push(a)) == actions_view(acts).push(a@),
{
    assert forall|j: int| 0 <= j < acts.len() + 1 implies actions_view(acts.push(a))[j]
        == actions_view(acts).push(a@)[j] by {
        if j < acts.len() {
            assert(acts.push(a)[j] == acts[j]);
        } else {
            assert(acts.push(a)[j] == a);
        }
    }
    assert(actions_view(acts.push(a)) =~= actions_view(acts).push(a@));
}

impl From<IdentifyEvent> for Event {
    fn from(value: IdentifyEvent) -> (r: Event) {
        Event::Identify(value)
    }
}

impl vstd::std_specs::convert::FromSpecImpl<IdentifyEvent> for Event {
    open spec fn obeys_from_spec() -> bool {
        true
    }

    open spec fn from_spec(value: IdentifyEvent) -> Event {
        Event::Identify(value)
    }
}

impl From<RelayEvent> for Event {
    fn from(value: RelayEvent) -> (r: Event) {
        Event::Relay(value)
    }
}

impl vstd::std_specs::convert::FromSpecImpl<RelayEvent> for Event {
    open spec fn obeys_from_spec() -> bool {
        true
    }

    open spec fn from_spec(value: RelayEvent) -> Event {
        Event::Relay(value)
    }
}

impl From<RendezvousEvent> for Event {
    fn from(value: RendezvousEvent) -> (r: Event) {
        Event::Rendezvous(value)
    }
}

impl vstd::std_specs::convert::FromSpecImpl<RendezvousEvent> for Event {
    open spec fn obeys_from_spec() -> bool {
        true
    }

    open spec fn from_spec(value: RendezvousEvent) -> Event {
        Event::Rendezvous(value)
    }
}

} // verus!
