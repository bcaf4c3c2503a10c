//! The library's laws: properties of the orchestration folds that relate
//! several functions, stated and proved once, for every input they speak of.

use vstd::prelude::*;

use crate::addr::Comp;
use crate::connection::{dial_actions, handle_run, HandleError, Phase};
use crate::events::{ActionModel, EventModel, IdentifyModel, RegistrationModel, RelayModel, RendezvousModel};
use crate::node::{exchange_run, reservation_run, ExchangeOut};

verus! {

/// The payload of the first address-exchange `Sent` event, if any.
pub open spec fn first_sent(es: Seq<EventModel>) -> Option<Seq<u8>>
    decreases es.len(),
{
    if es.len() == 0 {
        None
    } else {
        match es[0] {
            EventModel::Identify(IdentifyModel::Sent(p)) => Some(p),
            _ => first_sent(es.skip(1)),
        }
    }
}

/// The payload of the first address-exchange `Received` event, if any.
pub open spec fn first_received(es: Seq<EventModel>) -> Option<Seq<Comp>>
    decreases es.len(),
{
    if es.len() == 0 {
        None
    } else {
        match es[0] {
            EventModel::Identify(IdentifyModel::Received(a)) => Some(a),
            _ => first_received(es.skip(1)),
        }
    }
}

/// An event stream of address-exchange facts only.
pub open spec fn only_exchange_events(es: Seq<EventModel>) -> bool {
    forall|j: int|
        0 <= j < es.len() ==> ((#[trigger] es[j]) matches EventModel::Identify(
            IdentifyModel::Sent(_),
        ) || es[j] matches EventModel::Identify(IdentifyModel::Received(_)))
}

proof fn lemma_exchange_collects_once_gen(
    sent: Option<Seq<u8>>,
    recv: Option<Seq<Comp>>,
    es: Seq<EventModel>,
)
    requires
        only_exchange_events(es),
        sent is Some || first_sent(es) is Some,
        recv is Some || first_received(es) is Some,
        !(sent is Some && recv is Some),
    ensures
        exchange_run(sent, recv, es) == (ExchangeOut::Done {
            peer: if sent is Some {
                sent->Some_0
            } else {
                first_sent(es)->Some_0
            },
            observed: if recv is Some {
                recv->Some_0
            } else {
                first_received(es)->Some_0
            },
        }),
    decreases es.len(),
{
    assert(es.len() > 0);
    assert(forall|j: int|
        0 <= j < es.skip(1).len() ==> ((#[trigger] es.skip(1)[j]) matches EventModel::Identify(
            IdentifyModel::Sent(_),
        ) || es.skip(1)[j] matches EventModel::Identify(IdentifyModel::Received(_))));
    match es[0] {
        EventModel::Identify(IdentifyModel::Sent(p)) => {
            let sent2 = if sent is Some {
                sent
            } else {
                Some(p)
            };
            if recv is Some {
            } else {
                lemma_exchange_collects_once_gen(sent2, recv, es.skip(1));
            }
        },
        EventModel::Identify(IdentifyModel::Received(a)) => {
            let recv2 = if recv is Some {
                recv
            } else {
                Some(a)
            };
            if sent is Some {
            } else {
                lemma_exchange_collects_once_gen(sent, recv2, es.skip(1));
            }
        },
        _ => {
            assert(false);
        },
    }
}

/// The address-exchange wait collects the two facts exactly once each,
/// whatever their order and however often they are duplicated: over any
/// stream of exchange facts containing at least one `Sent` and one
/// `Received`, it completes with the first of each.
pub proof fn lemma_exchange_collects_once(es: Seq<EventModel>)
    requires
        only_exchange_events(es),
        first_sent(es) is Some,
        first_received(es) is Some,
    ensures
        exchange_run(None, None, es) == (ExchangeOut::Done {
            peer: first_sent(es)->Some_0,
            observed: first_received(es)->Some_0,
        }),
{
    lemma_exchange_collects_once_gen(None, None, es);
}

/// An empty stream during the address-exchange wait is a failure, not a
/// silent empty result.
pub proof fn lemma_exchange_empty_fatal()
    ensures
        exchange_run(None, None, Seq::empty()) == ExchangeOut::Ended,
{
}

/// An event is lenient for the reservation wait: not a reservation outcome.
pub open spec fn lenient_for_reservation(e: EventModel) -> bool {
    !(e matches EventModel::Relay(RelayModel::ReservationAccepted)) && !(e
        matches EventModel::Relay(RelayModel::ReservationFailed))
}

pub open spec fn all_lenient(es: Seq<EventModel>) -> bool {
    forall|j: int| 0 <= j < es.len() ==> lenient_for_reservation(#[trigger] es[j])
}

/// The reservation wait skips any lenient prefix and stops exactly at the
/// first outcome event, accepting or failing with it.
pub proof fn lemma_reservation_skips(mid: Seq<EventModel>, outcome: EventModel, rest: Seq<EventModel>)
    requires
        all_lenient(mid),
        !lenient_for_reservation(outcome),
    ensures
        reservation_run(mid + seq![outcome] + rest) == (
            outcome matches EventModel::Relay(RelayModel::ReservationAccepted),
            mid.len() as int + 1,
        ),
    decreases mid.len(),
{
    let es = mid + seq![outcome] + rest;
    if mid.len() == 0 {
        assert(es[0] == outcome);
    } else {
        assert(es[0] == mid[0]);
        assert(es.skip(1) =~= mid.skip(1) + seq![outcome] + rest);
        assert(forall|j: int|
            0 <= j < mid.skip(1).len() ==> lenient_for_reservation(#[trigger] mid.skip(1)[j]));
        lemma_reservation_skips(mid.skip(1), outcome, rest);
    }
}

/// A discovery result with zero registrations issues exactly one
/// relay-listen request and, upon the next reservation outcome being an
/// acceptance, exactly one registration request, then scans on.
pub proof fn lemma_bootstrap_round(
    rid: Seq<u8>,
    raddr: Seq<Comp>,
    mid: Seq<EventModel>,
    rest: Seq<EventModel>,
)
    requires
        all_lenient(mid),
    ensures
        ({
            let es = seq![
                EventModel::Rendezvous(RendezvousModel::Discovered(Seq::empty())),
            ] + mid + seq![EventModel::Relay(RelayModel::ReservationAccepted)] + rest;
            let g = handle_run(rid, raddr, Phase::Scanning, rest);
            handle_run(rid, raddr, Phase::Scanning, es) == (
                g.0,
                seq![
                    ActionModel::RelayListen(raddr.push(Comp::Circuit)),
                    ActionModel::Register(rid),
                ] + g.1,
            )
        }),
{
    let disc = EventModel::Rendezvous(RendezvousModel::Discovered(Seq::empty()));
    let acc = EventModel::Relay(RelayModel::ReservationAccepted);
    let es = seq![disc] + mid + seq![acc] + rest;
    let waited = mid + seq![acc] + rest;
    assert(es[0] == disc);
    assert(es.skip(1) =~= waited);
    crate::connection::lemma_reservation_phase(rid, raddr, waited);
    lemma_reservation_skips(mid, acc, rest);
    assert(waited.skip(mid.len() as int + 1) =~= rest);
    let g = handle_run(rid, raddr, Phase::Scanning, rest);
    assert(handle_run(rid, raddr, Phase::AwaitingReservation, waited) == (
        g.0,
        seq![ActionModel::Register(rid)] + g.1,
    ));
    assert(seq![ActionModel::RelayListen(raddr.push(Comp::Circuit))] + (seq![
        ActionModel::Register(rid),
    ] + g.1) =~= seq![
        ActionModel::RelayListen(raddr.push(Comp::Circuit)),
        ActionModel::Register(rid),
    ] + g.1);
}

/// A rejected reservation (or, equally, a stream that ends while waiting)
/// after a zero-registration discovery is fatal: the loop stops with the
/// relay-listen as the only further request.
pub proof fn lemma_reservation_failure_fatal(
    rid: Seq<u8>,
    raddr: Seq<Comp>,
    mid: Seq<EventModel>,
    rest: Seq<EventModel>,
)
    requires
        all_lenient(mid),
    ensures
        ({
            let es = seq![
                EventModel::Rendezvous(RendezvousModel::Discovered(Seq::empty())),
            ] + mid + seq![EventModel::Relay(RelayModel::ReservationFailed)] + rest;
            handle_run(rid, raddr, Phase::Scanning, es) == (
                Err::<(), HandleError>(HandleError::ReservationFailed),
                seq![ActionModel::RelayListen(raddr.push(Comp::Circuit))],
            )
        }),
{
    let disc = EventModel::Rendezvous(RendezvousModel::Discovered(Seq::empty()));
    let fail = EventModel::Relay(RelayModel::ReservationFailed);
    let es = seq![disc] + mid + seq![fail] + rest;
    let waited = mid + seq![fail] + rest;
    assert(es[0] == disc);
    assert(es.skip(1) =~= waited);
    crate::connection::lemma_reservation_phase(rid, raddr, waited);
    lemma_reservation_skips(mid, fail, rest);
    assert(seq![ActionModel::RelayListen(raddr.push(Comp::Circuit))]
        + Seq::<ActionModel>::empty() =~= seq![
        ActionModel::RelayListen(raddr.push(Comp::Circuit)),
    ]);
}

/// A discovery result with `N >= 1` registrations issues exactly `N` dial
/// requests, the `j`-th targeting the rendezvous address extended with the
/// circuit marker and the `j`-th registration's peer identifier, then
/// scans on.
pub proof fn lemma_discovery_dials_each(
    rid: Seq<u8>,
    raddr: Seq<Comp>,
    regs: Seq<RegistrationModel>,
    rest: Seq<EventModel>,
)
    requires
        regs.len() >= 1,
    ensures
        ({
            let es = seq![EventModel::Rendezvous(RendezvousModel::Discovered(regs))] + rest;
            let g = handle_run(rid, raddr, Phase::Scanning, rest);
            handle_run(rid, raddr, Phase::Scanning, es) == (g.0, dial_actions(raddr, regs) + g.1)
        }),
        dial_actions(raddr, regs).len() == regs.len(),
        forall|j: int|
            0 <= j < regs.len() ==> dial_actions(raddr, regs)[j] == ActionModel::Dial(
                raddr.push(Comp::Circuit).push(Comp::Peer(regs[j].peer)),
            ),
{
    let disc = EventModel::Rendezvous(RendezvousModel::Discovered(regs));
    let es = seq![disc] + rest;
    assert(es[0] == disc);
    assert(es.skip(1) =~= rest);
}

} // verus!
