//! The relay's guarantees, stated and proved over the registry's model: exact
//! membership under any event history, delivery of a broadcast to everyone
//! but the sender, per-sender FIFO order, idempotent removal, and isolation
//! of one recipient's failure from the rest of a broadcast.

use crate::registry::{
    delivers_to, spec_broadcast, spec_close, spec_insert, spec_remove, MailboxModel,
};
use vstd::prelude::*;

verus! {

/// One registry-affecting event in the life of the relay: a peer finished its
/// handshake and was registered; a peer was unregistered (it sent a close
/// frame, its stream ended or errored, or a write to it failed); a registered
/// peer broadcast a line; or a peer's receiving side went away.
pub enum HubEvent {
    Connected { id: u64 },
    Disconnected { id: u64 },
    Broadcast { sender: u64, line: Seq<char> },
    ReceiverGone { id: u64 },
}

/// How one event transforms the registry model.
pub open spec fn apply_event(m: Map<u64, MailboxModel>, e: HubEvent) -> Map<u64, MailboxModel> {
    match e {
        HubEvent::Connected { id } => spec_insert(m, id),
        HubEvent::Disconnected { id } => spec_remove(m, id),
        HubEvent::Broadcast { sender, line } => spec_broadcast(m, sender, line),
        HubEvent::ReceiverGone { id } => spec_close(m, id),
    }
}

/// The registry model after a whole event history.
pub open spec fn apply_events(m: Map<u64, MailboxModel>, es: Seq<HubEvent>) -> Map<
    u64,
    MailboxModel,
>
    decreases es.len(),
{
    if es.len() == 0 {
        m
    } else {
        apply_events(apply_event(m, es[0]), es.skip(1))
    }
}

/// How one event changes the set of registered identities: only registration
/// and unregistration do.
pub open spec fn live_step(s: Set<u64>, e: HubEvent) -> Set<u64> {
    match e {
        HubEvent::Connected { id } => s.insert(id),
        HubEvent::Disconnected { id } => s.remove(id),
        HubEvent::Broadcast { .. } => s,
        HubEvent::ReceiverGone { .. } => s,
    }
}

/// The registered identities after a whole event history.
pub open spec fn live_after(s: Set<u64>, es: Seq<HubEvent>) -> Set<u64>
    decreases es.len(),
{
    if es.len() == 0 {
        s
    } else {
        live_after(live_step(s, es[0]), es.skip(1))
    }
}

/// Law (exact membership): after any event history, the registry's keys are
/// exactly the identities that have connected and not since disconnected —
/// broadcasts and a receiver going away never change membership.
pub proof fn lemma_registry_membership(m: Map<u64, MailboxModel>, es: Seq<HubEvent>)
    ensures
        apply_events(m, es).dom() == live_after(m.dom(), es),
    decreases es.len(),
{
    if es.len() > 0 {
        let m1 = apply_event(m, es[0]);
        assert(m1.dom() =~= live_step(m.dom(), es[0])) by {
            match es[0] {
                HubEvent::Connected { .. } => {},
                HubEvent::Disconnected { .. } => {},
                HubEvent::Broadcast { sender, line } => {
                    assert forall|id: u64| #[trigger]
                        m1.dom().contains(id) == m.dom().contains(id) by {
                        assert(m1.contains_key(id) == m.contains_key(id));
                    }
                },
                HubEvent::ReceiverGone { .. } => {},
            }
        }
        lemma_registry_membership(m1, es.skip(1));
    }
}

/// Law (broadcast delivery): a line broadcast by `sender` is appended to the
/// mailbox of every other registered peer whose mailbox is open; the sender's
/// own mailbox — like every closed one — is untouched, and membership and
/// open flags do not change.
pub proof fn lemma_broadcast_delivery(m: Map<u64, MailboxModel>, sender: u64, line: Seq<char>)
    ensures
        spec_broadcast(m, sender, line).dom() == m.dom(),
        forall|id: u64|
            delivers_to(m, sender, id) ==> (#[trigger] spec_broadcast(m, sender, line)[id]).queue
                == m[id].queue.push(line),
        forall|id: u64|
            m.contains_key(id) && !delivers_to(m, sender, id) ==> #[trigger] spec_broadcast(
                m,
                sender,
                line,
            )[id] == m[id],
        forall|id: u64|
            m.contains_key(id) ==> (#[trigger] spec_broadcast(m, sender, line)[id]).open
                == m[id].open,
{
    assert(spec_broadcast(m, sender, line).dom() =~= m.dom()) by {
        assert forall|id: u64| #[trigger]
            spec_broadcast(m, sender, line).contains_key(id) == m.contains_key(id) by {}
    }
}

/// Law (per-sender FIFO): two lines broadcast in succession by the same
/// sender stand in every recipient's mailbox in the order they were sent —
/// the first strictly before the second, after everything already queued.
pub proof fn lemma_per_sender_fifo(
    m: Map<u64, MailboxModel>,
    sender: u64,
    first: Seq<char>,
    second: Seq<char>,
    id: u64,
)
    requires
        delivers_to(m, sender, id),
    ensures
        spec_broadcast(spec_broadcast(m, sender, first), sender, second)[id].queue == m[id].queue
            .push(first).push(second),
{
    let m1 = spec_broadcast(m, sender, first);
    lemma_broadcast_delivery(m, sender, first);
    assert(delivers_to(m1, sender, id));
    lemma_broadcast_delivery(m1, sender, second);
}

/// Law (idempotent removal): removing a peer twice is the same as removing it
/// once, and a removal leaves every other peer's registration and queued
/// lines exactly as they were.
pub proof fn lemma_remove_idempotent(m: Map<u64, MailboxModel>, id: u64)
    ensures
        spec_remove(spec_remove(m, id), id) == spec_remove(m, id),
        forall|q: u64|
            q != id && m.contains_key(q) ==> #[trigger] spec_remove(m, id).contains_key(q)
                && spec_remove(m, id)[q] == m[q],
        !spec_remove(m, id).contains_key(id),
{
    assert(spec_remove(spec_remove(m, id), id) =~= spec_remove(m, id));
}

/// Law (failure isolation): a recipient whose mailbox has closed is skipped
/// by a broadcast — nothing is enqueued for it — while every open recipient
/// in that same broadcast still receives the line.
pub proof fn lemma_send_failure_isolated(
    m: Map<u64, MailboxModel>,
    sender: u64,
    line: Seq<char>,
    closed_id: u64,
    id: u64,
)
    requires
        m.contains_key(closed_id),
        !m[closed_id].open,
        delivers_to(m, sender, id),
    ensures
        spec_broadcast(m, sender, line)[closed_id] == m[closed_id],
        spec_broadcast(m, sender, line)[id].queue == m[id].queue.push(line),
{
    lemma_broadcast_delivery(m, sender, line);
}

} // verus!
