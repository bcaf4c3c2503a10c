//! The connection: an orchestrator bound to one rendezvous peer that
//! discovers other peers and establishes relayed connections to them, or
//! bootstraps this node's own discoverability when none are known yet.

use vstd::prelude::*;

use crate::addr::{Comp, NodeId, PeerAddress};
use crate::events::{
    actions_view, events_view, lemma_actions_view_push, regs_view, Action, ActionModel, Event,
    EventModel, RegistrationModel, RelayModel, RendezvousEvent, RendezvousModel,
};
use crate::node::{reservation_run, Node};

verus! {

/// Why `handle` ended fatally.
#[derive(Debug, PartialEq, Eq, Structural)]
pub enum HandleError {
    /// The relay reservation was rejected, or the stream ended while
    /// waiting for its outcome.
    ReservationFailed,
    /// Our own registration with the rendezvous peer was rejected.
    RegistrationFailed,
}

/// The phase of the discovery/dial loop.
#[derive(Debug, PartialEq, Eq, Structural)]
pub enum Phase {
    /// Reacting to discovery results and other events.
    Scanning,
    /// A relay listener was opened; waiting for the reservation outcome
    /// before registering.
    AwaitingReservation,
}

/// The dial requests for a discovery result: one per registration, each
/// targeting the rendezvous address extended with the circuit marker and
/// that peer's identifier.
pub open spec fn dial_actions(raddr: Seq<Comp>, regs: Seq<RegistrationModel>) -> Seq<ActionModel> {
    Seq::new(
        regs.len(),
        |j: int| ActionModel::Dial(raddr.push(Comp::Circuit).push(Comp::Peer(regs[j].peer))),
    )
}

/// The discovery/dial loop as a fold over the event stream: a discovery
/// result with no registrations opens a relay listener and awaits the
/// reservation before registering; one with registrations dials each; a
/// rejected registration or reservation is fatal; everything else is
/// surfaced and skipped; the loop succeeds only when the stream ends.
pub open spec fn handle_run(
    rid: Seq<u8>,
    raddr: Seq<Comp>,
    phase: Phase,
    es: Seq<EventModel>,
) -> (Result<(), HandleError>, Seq<ActionModel>)
    decreases es.len(),
{
    if es.len() == 0 {
        if phase is Scanning {
            (Ok(()), Seq::empty())
        } else {
            (Err(HandleError::ReservationFailed), Seq::empty())
        }
    } else {
        match phase {
            Phase::Scanning => match es[0] {
                EventModel::Rendezvous(RendezvousModel::Discovered(regs)) => if regs.len() == 0 {
                    let g = handle_run(rid, raddr, Phase::AwaitingReservation, es.skip(1));
                    (g.0, seq![ActionModel::RelayListen(raddr.push(Comp::Circuit))] + g.1)
                } else {
                    let g = handle_run(rid, raddr, Phase::Scanning, es.skip(1));
                    (g.0, dial_actions(raddr, regs) + g.1)
                },
                EventModel::Rendezvous(RendezvousModel::RegisterFailed) => (
                    Err(HandleError::RegistrationFailed),
                    Seq::empty(),
                ),
                _ => handle_run(rid, raddr, Phase::Scanning, es.skip(1)),
            },
            Phase::AwaitingReservation => match es[0] {
                EventModel::Relay(RelayModel::ReservationAccepted) => {
                    let g = handle_run(rid, raddr, Phase::Scanning, es.skip(1));
                    (g.0, seq![ActionModel::Register(rid)] + g.1)
                },
                EventModel::Relay(RelayModel::ReservationFailed) => (
                    Err(HandleError::ReservationFailed),
                    Seq::empty(),
                ),
                _ => handle_run(rid, raddr, Phase::AwaitingReservation, es.skip(1)),
            },
        }
    }
}

/// The reservation wait consumes a non-negative prefix of the stream.
pub proof fn lemma_reservation_run_bounds(es: Seq<EventModel>)
    ensures
        0 <= reservation_run(es).1 <= es.len(),
    decreases es.len(),
{
    if es.len() > 0 {
        match es[0] {
            EventModel::Relay(RelayModel::ReservationAccepted) => {},
            EventModel::Relay(RelayModel::ReservationFailed) => {},
            _ => {
                lemma_reservation_run_bounds(es.skip(1));
            },
        }
    }
}

/// Awaiting the reservation equals running the lenient reservation wait
/// and, on acceptance, registering and scanning on; on rejection or stream
/// end it is fatal with no further requests.
pub proof fn lemma_reservation_phase(rid: Seq<u8>, raddr: Seq<Comp>, es: Seq<EventModel>)
    ensures
        handle_run(rid, raddr, Phase::AwaitingReservation, es) == ({
            let f = reservation_run(es);
            if f.0 {
                let g = handle_run(rid, raddr, Phase::Scanning, es.skip(f.1));
                (g.0, seq![ActionModel::Register(rid)] + g.1)
            } else {
                (Err::<(), HandleError>(HandleError::ReservationFailed), Seq::<ActionModel>::empty())
            }
        }),
    decreases es.len(),
{
    if es.len() == 0 {
    } else {
        match es[0] {
            EventModel::Relay(RelayModel::ReservationAccepted) => {
                assert(es.skip(reservation_run(es).1) =~= es.skip(1));
            },
            EventModel::Relay(RelayModel::ReservationFailed) => {},
            _ => {
                lemma_reservation_phase(rid, raddr, es.skip(1));
                lemma_reservation_run_bounds(es.skip(1));
                let f1 = reservation_run(es.skip(1));
                assert(es.skip(1).skip(f1.1) =~= es.skip(1 + f1.1));
            },
        }
    }
}

/// A short-lived orchestrator bound to one rendezvous peer. It owns the
/// node exclusively for its lifetime, so no second orchestration can run
/// against the same identity concurrently.
pub struct Connection {
    node: Node,
    rendezvous_node_id: NodeId,
    rendezvous_node_addr: PeerAddress,
    observed_addr: Option<PeerAddress>,
}

impl Connection {
    /// The model of the rendezvous peer's identifier.
    pub closed spec fn rendezvous_id_view(&self) -> Seq<u8> {
        self.rendezvous_node_id@
    }

    /// The model of the rendezvous peer's address.
    pub closed spec fn rendezvous_addr_view(&self) -> Seq<Comp> {
        self.rendezvous_node_addr@
    }

    /// The model of our recorded externally observed address, if any.
    pub closed spec fn observed_view(&self) -> Option<Seq<Comp>> {
        match self.observed_addr {
            Some(a) => Some(a@),
            None => None,
        }
    }

    /// The model of the owned node's identifier.
    pub closed spec fn node_id_view(&self) -> Seq<u8> {
        self.node.id_view()
    }

    /// Binds a rendezvous peer to the node, taking exclusive ownership of
    /// the node for the connection's lifetime.
    pub fn new(node: Node, rendezvous_node_id: NodeId, rendezvous_node_addr: PeerAddress) -> (r:
        Connection)
        ensures
            r.node_id_view() == node.id_view(),
            r.rendezvous_id_view() == rendezvous_node_id@,
            r.rendezvous_addr_view() == rendezvous_node_addr@,
            r.observed_view() is None,
    {
        Connection { node, rendezvous_node_id, rendezvous_node_addr, observed_addr: None }
    }

    /// Records our externally observed address (informational).
    pub(crate) fn record_observed(&mut self, a: PeerAddress)
        ensures
            final(self).observed_view() == Some(a@),
            final(self).rendezvous_id_view() == old(self).rendezvous_id_view(),
            final(self).rendezvous_addr_view() == old(self).rendezvous_addr_view(),
            final(self).node_id_view() == old(self).node_id_view(),
    {
        self.observed_addr = Some(a);
    }

    /// Releases the owned node.
    pub fn into_node(self) -> (r: Node)
        ensures
            r.id_view() == self.node_id_view(),
    {
        self.node
    }

    /// The rendezvous peer's identifier.
    pub fn rendezvous_node_id(&self) -> (r: &NodeId)
        ensures
            r@ == self.rendezvous_id_view(),
    {
        &self.rendezvous_node_id
    }

    /// The rendezvous peer's address.
    pub fn rendezvous_node_addr(&self) -> (r: &PeerAddress)
        ensures
            r@ == self.rendezvous_addr_view(),
    {
        &self.rendezvous_node_addr
    }

    /// Our recorded externally observed address, if any.
    pub fn observed_addr(&self) -> (r: &Option<PeerAddress>)
        ensures
            match r {
                Some(a) => self.observed_view() == Some(a@),
                None => self.observed_view() is None,
            },
    {
        &self.observed_addr
    }

    /// The discovery/dial loop: issues one discovery request to the
    /// rendezvous peer and then reacts to the stream exactly as
    /// `handle_run` states, returning the requests issued in order.
    #[verifier::rlimit(100)]
    pub fn handle(&self, events: &Vec<Event>) -> (r: (Result<(), HandleError>, Vec<Action>))
        ensures
            ({
                let f = handle_run(
                    self.rendezvous_id_view(),
                    self.rendezvous_addr_view(),
                    Phase::Scanning,
                    events_view(events@),
                );
                r.0 == f.0 && actions_view(r.1@) == seq![
                    ActionModel::Discover(self.rendezvous_id_view()),
                ] + f.1
            }),
    {
        let ghost rid = self.rendezvous_id_view();
        let ghost raddr = self.rendezvous_addr_view();
        let ghost m = events_view(events@);
        let mut out: Vec<Action> = Vec::new();
        out.push(Action::Discover(self.rendezvous_node_id.duplicate()));
        proof {
            assert(actions_view(out@) =~= seq![ActionModel::Discover(rid)]);
            assert(m.skip(0) =~= m);
            assert(actions_view(out@).skip(1) =~= Seq::<ActionModel>::empty());
            assert(actions_view(out@).skip(1) + handle_run(rid, raddr, Phase::Scanning, m).1
                =~= handle_run(rid, raddr, Phase::Scanning, m).1);
        }
        let mut i: usize = 0;
        while i < events.len()
            invariant
                i <= events@.len(),
                m == events_view(events@),
                rid == self.rendezvous_id_view(),
                raddr == self.rendezvous_addr_view(),
                actions_view(out@).len() >= 1,
                actions_view(out@)[0] == ActionModel::Discover(rid),
                handle_run(rid, raddr, Phase::Scanning, m) == (
                    handle_run(rid, raddr, Phase::Scanning, m.skip(i as int)).0,
                    actions_view(out@).skip(1) + handle_run(
                        rid,
                        raddr,
                        Phase::Scanning,
                        m.skip(i as int),
                    ).1,
                ),
            decreases events@.len() - i,
        {
            proof {
                assert(m.skip(i as int)[0] == m[i as int]);
                assert(m[i as int] == events@[i as int]@);
                assert(m.skip(i as int).skip(1) =~= m.skip(i + 1));
            }
            match &events[i] {
                Event::Rendezvous(RendezvousEvent::Discovered { registrations }) => {
                    if registrations.len() == 0 {
                        proof {
                            assert(regs_view(registrations@).len() == 0);
                        }
                        let listen_act = Action::RelayListen(
                            self.rendezvous_node_addr.with_circuit(),
                        );
                        let ghost gl = listen_act;
                        let ghost before = out@;
                        out.push(listen_act);
                        proof {
                            lemma_actions_view_push(before, gl);
                            lemma_reservation_phase(rid, raddr, m.skip(i + 1));
                            lemma_reservation_run_bounds(m.skip(i + 1));
                        }
                        let (ok, j) = self.node.wait_for_reservation(events, i + 1);
                        if !ok {
                            proof {
                                assert(actions_view(out@).skip(1) =~= actions_view(before).skip(1)
                                    + seq![ActionModel::RelayListen(raddr.push(Comp::Circuit))]);
                            }
                            return (Err(HandleError::ReservationFailed), out);
                        }
                        let register_act = Action::Register(self.rendezvous_node_id.duplicate());
                        let ghost gr = register_act;
                        let ghost before2 = out@;
                        out.push(register_act);
                        proof {
                            lemma_actions_view_push(before2, gr);
                            let f = reservation_run(m.skip(i + 1));
                            assert(m.skip(i + 1).skip(f.1) =~= m.skip(i + 1 + f.1));
                            assert(actions_view(out@).skip(1) + handle_run(
                                rid,
                                raddr,
                                Phase::Scanning,
                                m.skip(j as int),
                            ).1 =~= actions_view(before).skip(1) + (seq![
                                ActionModel::RelayListen(raddr.push(Comp::Circuit)),
                            ] + (seq![ActionModel::Register(rid)] + handle_run(
                                rid,
                                raddr,
                                Phase::Scanning,
                                m.skip(j as int),
                            ).1)));
                        }
                        i = j;
                    } else {
                        let ghost base = actions_view(out@);
                        let ghost rv = regs_view(registrations@);
                        let mut k: usize = 0;
                        proof {
                            assert(base + dial_actions(raddr, rv).take(0) =~= base);
                        }
                        while k < registrations.len()
                            invariant
                                k <= registrations@.len(),
                                rv == regs_view(registrations@),
                                raddr == self.rendezvous_addr_view(),
                                actions_view(out@) == base + dial_actions(raddr, rv).take(k as int),
                            decreases registrations@.len() - k,
                        {
                            let target = self.rendezvous_node_addr.with_circuit().with_peer(
                                &registrations[k].peer,
                            );
                            let dial_act = Action::Dial(target);
                            let ghost gd = dial_act;
                            let ghost beforek = out@;
                            out.push(dial_act);
                            proof {
                                lemma_actions_view_push(beforek, gd);
                                assert(rv[k as int] == registrations@[k as int]@);
                                assert(actions_view(out@) =~= base + dial_actions(raddr, rv).take(
                                    k + 1,
                                ));
                            }
                            k = k + 1;
                        }
                        proof {
                            assert(dial_actions(raddr, rv).take(rv.len() as int) =~= dial_actions(
                                raddr,
                                rv,
                            ));
                            assert(actions_view(out@).skip(1) =~= base.skip(1) + dial_actions(
                                raddr,
                                rv,
                            ));
                            assert(actions_view(out@).skip(1) + handle_run(
                                rid,
                                raddr,
                                Phase::Scanning,
                                m.skip(i + 1),
                            ).1 =~= base.skip(1) + (dial_actions(raddr, rv) + handle_run(
                                rid,
                                raddr,
                                Phase::Scanning,
                                m.skip(i + 1),
                            ).1));
                        }
                        i = i + 1;
                    }
                },
                Event::Rendezvous(RendezvousEvent::RegisterFailed) => {
                    return (Err(HandleError::RegistrationFailed), out);
                },
                _ => {
                    i = i + 1;
                },
            }
        }
        proof {
            assert(m.skip(i as int).len() == 0);
            assert(actions_view(out@) =~= seq![actions_view(out@)[0]] + actions_view(out@).skip(1));
        }
        (Ok(()), out)
    }
}

} // verus!
