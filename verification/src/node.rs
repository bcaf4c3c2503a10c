//! The node: a generated identity and the boot-sequence orchestration that
//! dials an introducer and harvests the two address-exchange facts.

use vstd::prelude::*;

use crate::addr::{parse_rest, valid_id, Comp, NodeId, PeerAddress};
use crate::connection::Connection;
use crate::events::{
    actions_view, events_view, Action, ActionModel, Event, EventModel, IdentifyEvent,
    IdentifyModel, RelayEvent, RelayModel,
};

verus! {

/// Declares libp2p_identity::Keypair so it can stand in fields and
/// signatures; its values are opaque here.
#[verifier::external_type_specification]
#[verifier::external_body]
pub struct ExKeypair(libp2p_identity::Keypair);

/// Declares libp2p_identity::PublicKey; its values are opaque here.
#[verifier::external_type_specification]
#[verifier::external_body]
pub struct ExPublicKey(libp2p_identity::PublicKey);

/// Declares libp2p_identity::PeerId; its values are opaque here.
#[verifier::external_type_specification]
#[verifier::external_body]
pub struct ExPeerId(libp2p_identity::PeerId);

/// Relies on libp2p_identity::Keypair::generate_ed25519: draws a fresh
/// keypair; nothing is promised of a random value.
#[verifier::external_body]
fn generate_keypair() -> libp2p_identity::Keypair {
    libp2p_identity::Keypair::generate_ed25519()
}

/// Relies on libp2p_identity::Keypair::public: the public half of a keypair.
#[verifier::external_body]
fn public_of(kp: &libp2p_identity::Keypair) -> libp2p_identity::PublicKey {
    kp.public()
}

/// Relies on libp2p_identity::PublicKey::to_peer_id: the peer identifier
/// derived deterministically from a public key.
#[verifier::external_body]
fn peer_id_of(pk: &libp2p_identity::PublicKey) -> libp2p_identity::PeerId {
    pk.to_peer_id()
}

/// Relies on libp2p_identity::PeerId::to_base58: the base58btc encoding of
/// the identifier's multihash bytes, so non-empty text over the base58
/// alphabet.
#[verifier::external_body]
fn peer_id_text(p: &libp2p_identity::PeerId) -> (r: Vec<u8>)
    ensures
        valid_id(r@),
{
    (*p).to_base58().into_bytes()
}

/// Why `connect` failed.
#[derive(Debug, PartialEq, Eq, Structural)]
pub enum ConnectError {
    /// The introducer address text does not parse.
    InvalidAddress,
    /// The event stream ended before both address-exchange facts arrived.
    StreamEnded,
    /// An event of an unexpected kind arrived during the strict
    /// address-exchange phase.
    UnexpectedEvent,
}

/// Outcome of the address-exchange wait.
pub enum ExchangeOut {
    /// Both facts arrived: the remote's identifier from the first `Sent`,
    /// our observed address from the first `Received`.
    Done { peer: Seq<u8>, observed: Seq<Comp> },
    /// The stream ended first.
    Ended,
    /// An event of an unexpected kind arrived first.
    Unexpected,
}

/// The address-exchange wait: consumes events in order, records the first
/// `Sent` and the first `Received` (duplicates are not counted again), stops
/// as soon as both are present, and is strict about anything else.
pub open spec fn exchange_run(
    sent: Option<Seq<u8>>,
    recv: Option<Seq<Comp>>,
    es: Seq<EventModel>,
) -> ExchangeOut
    decreases es.len(),
{
    if es.len() == 0 {
        ExchangeOut::Ended
    } else {
        match es[0] {
            EventModel::Identify(IdentifyModel::Sent(p)) => {
                let sent2 = if sent is Some {
                    sent
                } else {
                    Some(p)
                };
                if recv is Some {
                    ExchangeOut::Done { peer: sent2->Some_0, observed: recv->Some_0 }
                } else {
                    exchange_run(sent2, recv, es.skip(1))
                }
            },
            EventModel::Identify(IdentifyModel::Received(a)) => {
                let recv2 = if recv is Some {
                    recv
                } else {
                    Some(a)
                };
                if sent is Some {
                    ExchangeOut::Done { peer: sent->Some_0, observed: recv2->Some_0 }
                } else {
                    exchange_run(sent, recv2, es.skip(1))
                }
            },
            _ => ExchangeOut::Unexpected,
        }
    }
}

/// The reservation wait: skips unrelated events leniently and stops at the
/// first reservation outcome. Yields whether it was accepted and how many
/// events were consumed.
pub open spec fn reservation_run(es: Seq<EventModel>) -> (bool, int)
    decreases es.len(),
{
    if es.len() == 0 {
        (false, 0)
    } else {
        match es[0] {
            EventModel::Relay(RelayModel::ReservationAccepted) => (true, 1),
            EventModel::Relay(RelayModel::ReservationFailed) => (false, 1),
            _ => {
                let r = reservation_run(es.skip(1));
                (r.0, r.1 + 1)
            },
        }
    }
}

pub open spec fn opt_id_view(o: Option<NodeId>) -> Option<Seq<u8>> {
    match o {
        Some(id) => Some(id@),
        None => None,
    }
}

pub open spec fn opt_addr_view(o: Option<PeerAddress>) -> Option<Seq<Comp>> {
    match o {
        Some(a) => Some(a@),
        None => None,
    }
}

/// How far an event prefix takes the address-exchange wait.
#[derive(Debug, PartialEq, Eq, Structural)]
pub enum ExchangeProgress {
    /// The prefix ran out before both facts arrived.
    Incomplete,
    /// Both facts arrived.
    Complete,
    /// An event of an unexpected kind arrived first.
    Failed,
}

/// Where the address-exchange wait stands on the given event prefix.
pub fn exchange_status(events: &Vec<Event>) -> (r: ExchangeProgress)
    ensures
        (r is Complete) == (exchange_run(None, None, events_view(events@)) is Done),
        (r is Failed) == (exchange_run(None, None, events_view(events@)) is Unexpected),
        (r is Incomplete) == (exchange_run(None, None, events_view(events@)) is Ended),
{
    let ghost m = events_view(events@);
    let ghost mut gsent: Option<Seq<u8>> = None;
    let ghost mut grecv: Option<Seq<Comp>> = None;
    let mut sent = false;
    let mut recv = false;
    let mut i: usize = 0;
    proof {
        assert(m.skip(0) =~= m);
    }
    while i < events.len()
        invariant
            i <= events@.len(),
            m == events_view(events@),
            (gsent is Some) == sent,
            (grecv is Some) == recv,
            !(sent && recv),
            exchange_run(None, None, m) == exchange_run(gsent, grecv, m.skip(i as int)),
        decreases events@.len() - i,
    {
        proof {
            assert(m.skip(i as int)[0] == m[i as int]);
            assert(m[i as int] == events@[i as int]@);
            assert(m.skip(i as int).skip(1) =~= m.skip(i + 1));
        }
        match &events[i] {
            Event::Identify(IdentifyEvent::Sent { peer }) => {
                sent = true;
                proof {
                    if gsent is None {
                        gsent = Some(peer@);
                    }
                }
            },
            Event::Identify(IdentifyEvent::Received { observed }) => {
                recv = true;
                proof {
                    if grecv is None {
                        grecv = Some(observed@);
                    }
                }
            },
            _ => {
                return ExchangeProgress::Failed;
            },
        }
        if sent && recv {
            return ExchangeProgress::Complete;
        }
        i = i + 1;
    }
    ExchangeProgress::Incomplete
}

/// A node: its keypair, its derived identifier, and nothing else; the
/// transport performing its requests lives outside.
pub struct Node {
    keypair: libp2p_identity::Keypair,
    id: NodeId,
}

impl Node {
    /// The model of this node's identifier.
    pub closed spec fn id_view(&self) -> Seq<u8> {
        self.id@
    }

    /// The identifier text is well formed.
    pub open spec fn wf(&self) -> bool {
        valid_id(self.id_view())
    }

    /// Generates a fresh identity. Always succeeds and performs no
    /// transport work.
    pub fn new() -> (r: Node)
        ensures
            r.wf(),
    {
        let kp = generate_keypair();
        let pk = public_of(&kp);
        let pid = peer_id_of(&pk);
        let text = peer_id_text(&pid);
        Node { keypair: kp, id: NodeId { repr: text } }
    }

    /// This node's own identifier.
    pub fn get_id(&self) -> (r: &NodeId)
        ensures
            r@ == self.id_view(),
    {
        &self.id
    }

    /// The public half of this node's keypair.
    pub fn public_key(&self) -> libp2p_identity::PublicKey {
        public_of(&self.keypair)
    }

    /// This node's keypair, for the transport that authenticates as it.
    pub fn keypair(&self) -> &libp2p_identity::Keypair {
        &self.keypair
    }

    /// Suspends until a relay-reservation outcome: scans `events` from
    /// `start`, ignoring unrelated events, and reports acceptance together
    /// with the position after the outcome event. Reports failure when the
    /// stream ends first.
    pub fn wait_for_reservation(&self, events: &Vec<Event>, start: usize) -> (r: (bool, usize))
        requires
            start <= events@.len(),
        ensures
            ({
                let f = reservation_run(events_view(events@).skip(start as int));
                r.0 == f.0 && r.1 == start + f.1 && r.1 <= events@.len()
            }),
    {
        let ghost m = events_view(events@);
        let mut i = start;
        while i < events.len()
            invariant
                start <= i <= events@.len(),
                m == events_view(events@),
                reservation_run(m.skip(start as int)) == (
                    reservation_run(m.skip(i as int)).0,
                    i - start + reservation_run(m.skip(i as int)).1,
                ),
            decreases events@.len() - i,
        {
            proof {
                assert(m.skip(i as int)[0] == m[i as int]);
                assert(m[i as int] == events@[i as int]@);
                assert(m.skip(i as int).skip(1) =~= m.skip(i + 1));
            }
            match &events[i] {
                Event::Relay(RelayEvent::ReservationAccepted) => {
                    return (true, i + 1);
                },
                Event::Relay(RelayEvent::ReservationFailed) => {
                    return (false, i + 1);
                },
                _ => {},
            }
            i = i + 1;
        }
        proof {
            assert(m.skip(i as int).len() == 0);
        }
        (false, i)
    }

    /// The boot handshake: parses the introducer address, requests the local
    /// listen and the outbound dial, then waits for exactly one `Sent` and
    /// one `Received` address-exchange fact, in either order, duplicates
    /// counted once, any other event being fatal. On success the introducer,
    /// now fully routable with its identifier appended, becomes the
    /// rendezvous peer of the returned `Connection`.
    pub fn connect(
        self,
        introducer_addr: &Vec<u8>,
        preferred_port: Option<u16>,
        events: &Vec<Event>,
    ) -> (r: (Result<Connection, ConnectError>, Vec<Action>))
        ensures
            parse_rest(introducer_addr@, 0) is None ==> r.0 == Err::<Connection, ConnectError>(
                ConnectError::InvalidAddress,
            ) && r.1@.len() == 0,
            parse_rest(introducer_addr@, 0) is Some ==> {
                let parsed = parse_rest(introducer_addr@, 0)->Some_0;
                actions_view(r.1@) == seq![
                    ActionModel::Listen(crate::addr::local_listen_model(preferred_port)),
                    ActionModel::Dial(parsed),
                ] && (match exchange_run(None, None, events_view(events@)) {
                    ExchangeOut::Done { peer, observed } => r.0 is Ok && {
                        let c = r.0->Ok_0;
                        c.rendezvous_id_view() == peer && c.rendezvous_addr_view() == parsed.push(
                            Comp::Peer(peer),
                        ) && c.observed_view() == Some(observed) && c.node_id_view()
                            == self.id_view()
                    },
                    ExchangeOut::Ended => r.0 == Err::<Connection, ConnectError>(
                        ConnectError::StreamEnded,
                    ),
                    ExchangeOut::Unexpected => r.0 == Err::<Connection, ConnectError>(
                        ConnectError::UnexpectedEvent,
                    ),
                })
            },
    {
        let parsed = match crate::addr::parse_addr(introducer_addr) {
            Some(a) => a,
            None => {
                return (Err(ConnectError::InvalidAddress), Vec::new());
            },
        };
        let mut actions: Vec<Action> = Vec::new();
        actions.push(Action::Listen(crate::addr::local_listen_addr(preferred_port)));
        actions.push(Action::Dial(parsed.duplicate()));
        proof {
            assert(actions_view(actions@) =~= seq![
                ActionModel::Listen(crate::addr::local_listen_model(preferred_port)),
                ActionModel::Dial(parse_rest(introducer_addr@, 0)->Some_0),
            ]);
        }
        let ghost m = events_view(events@);
        let mut sent: Option<NodeId> = None;
        let mut recv: Option<PeerAddress> = None;
        let mut i: usize = 0;
        proof {
            assert(m.skip(0) =~= m);
        }
        while i < events.len()
            invariant
                i <= events@.len(),
                m == events_view(events@),
                parse_rest(introducer_addr@, 0) == Some(parsed@),
                actions_view(actions@) == seq![
                    ActionModel::Listen(crate::addr::local_listen_model(preferred_port)),
                    ActionModel::Dial(parsed@),
                ],
                !(sent is Some && recv is Some),
                exchange_run(None, None, m) == exchange_run(
                    opt_id_view(sent),
                    opt_addr_view(recv),
                    m.skip(i as int),
                ),
            decreases events@.len() - i,
        {
            proof {
                assert(m.skip(i as int)[0] == m[i as int]);
                assert(m[i as int] == events@[i as int]@);
                assert(m.skip(i as int).skip(1) =~= m.skip(i + 1));
            }
            let ghost sent0 = sent;
            let ghost recv0 = recv;
            match &events[i] {
                Event::Identify(IdentifyEvent::Sent { peer }) => {
                    if sent.is_none() {
                        sent = Some(peer.duplicate());
                    }
                },
                Event::Identify(IdentifyEvent::Received { observed }) => {
                    if recv.is_none() {
                        recv = Some(observed.duplicate());
                    }
                },
                _ => {
                    proof {
                        assert(exchange_run(None, None, m) == ExchangeOut::Unexpected);
                    }
                    return (Err(ConnectError::UnexpectedEvent), actions);
                },
            }
            if sent.is_some() && recv.is_some() {
                proof {
                    assert(exchange_run(None, None, m) == ExchangeOut::Done {
                        peer: opt_id_view(sent)->Some_0,
                        observed: opt_addr_view(recv)->Some_0,
                    });
                }
                let sent_id = sent.unwrap();
                let observed = recv.unwrap();
                let mut full_addr = parsed;
                full_addr.push_peer(&sent_id);
                let mut conn = Connection::new(self, sent_id, full_addr);
                conn.record_observed(observed);
                return (Ok(conn), actions);
            }
            i = i + 1;
        }
        proof {
            assert(m.skip(i as int).len() == 0);
        }
        (Err(ConnectError::StreamEnded), actions)
    }
}

} // verus!
