use chat_relay::actor::{format_line, handle_frame, FrameOutcome, InboundFrame};
use chat_relay::registry::PeerRegistry;

const A: u64 = 1;
const B: u64 = 2;
const C: u64 = 3;
const D: u64 = 4;

fn registry_with(ids: &[u64]) -> PeerRegistry {
    let mut reg = PeerRegistry::new();
    for &id in ids {
        reg.insert(id);
    }
    reg
}

fn sorted(mut v: Vec<u64>) -> Vec<u64> {
    v.sort();
    v
}

#[test]
fn format_line_examples() {
    assert_eq!(format_line("A", "hi"), "A: hi");
    assert_eq!(format_line("127.0.0.1:9000", "hello there"), "127.0.0.1:9000: hello there");
    assert_eq!(format_line("A", ""), "A: ");
    assert_eq!(format_line("", "hi"), ": hi");
}

#[test]
fn scenario_broadcast_reaches_everyone_but_sender() {
    let mut reg = registry_with(&[A, B, C]);
    match handle_frame(&mut reg, A, "A", InboundFrame::Text("hi".to_string())) {
        FrameOutcome::Delivered { line, recipients } => {
            assert_eq!(line, "A: hi");
            assert_eq!(sorted(recipients), vec![B, C]);
        }
        _ => panic!("text frame must broadcast"),
    }
    assert_eq!(reg.take_next(B), Some("A: hi".to_string()));
    assert_eq!(reg.take_next(C), Some("A: hi".to_string()));
    assert_eq!(reg.take_next(A), None);
    assert_eq!(reg.take_next(B), None);
}

#[test]
fn scenario_closed_mailbox_is_skipped() {
    let mut reg = registry_with(&[A, B, C]);
    reg.close_mailbox(B);
    match handle_frame(&mut reg, A, "A", InboundFrame::Text("hi".to_string())) {
        FrameOutcome::Delivered { line, recipients } => {
            assert_eq!(line, "A: hi");
            assert_eq!(recipients, vec![C]);
        }
        _ => panic!("text frame must broadcast"),
    }
    assert_eq!(reg.take_next(B), None);
    assert_eq!(reg.take_next(C), Some("A: hi".to_string()));
    assert!(reg.is_registered(A));
    assert!(reg.is_registered(B));
}

#[test]
fn scenario_unsupported_frame_is_ignored() {
    let mut reg = registry_with(&[A, B]);
    match handle_frame(&mut reg, A, "A", InboundFrame::Unsupported) {
        FrameOutcome::Ignored => {}
        _ => panic!("an unsupported frame must be ignored"),
    }
    assert!(reg.is_registered(A));
    assert_eq!(reg.pending_count(B), Some(0));
    match handle_frame(&mut reg, A, "A", InboundFrame::Text("still here".to_string())) {
        FrameOutcome::Delivered { recipients, .. } => assert_eq!(recipients, vec![B]),
        _ => panic!("text frame must broadcast"),
    }
    assert_eq!(reg.take_next(B), Some("A: still here".to_string()));
}

#[test]
fn messages_from_one_sender_arrive_in_order() {
    let mut reg = registry_with(&[A, B]);
    for text in ["one", "two", "three"] {
        handle_frame(&mut reg, A, "A", InboundFrame::Text(text.to_string()));
    }
    assert_eq!(reg.pending_count(B), Some(3));
    assert_eq!(reg.take_next(B), Some("A: one".to_string()));
    assert_eq!(reg.take_next(B), Some("A: two".to_string()));
    assert_eq!(reg.take_next(B), Some("A: three".to_string()));
    assert_eq!(reg.take_next(B), None);
}

#[test]
fn remove_is_idempotent_and_isolated() {
    let mut reg = registry_with(&[A, B, C]);
    handle_frame(&mut reg, A, "A", InboundFrame::Text("hi".to_string()));
    reg.remove(B);
    reg.remove(B);
    assert!(!reg.is_registered(B));
    assert_eq!(reg.peer_count(), 2);
    assert_eq!(reg.pending_count(C), Some(1));
    assert_eq!(reg.take_next(C), Some("A: hi".to_string()));
}

#[test]
fn remove_absent_is_noop() {
    let mut reg = registry_with(&[A]);
    reg.remove(D);
    assert_eq!(reg.peer_count(), 1);
    assert!(reg.is_registered(A));
}

#[test]
fn close_frame_unregisters_the_sender() {
    let mut reg = registry_with(&[A, B, C]);
    match handle_frame(&mut reg, B, "B", InboundFrame::Close(None)) {
        FrameOutcome::Closed => {}
        _ => panic!("a close frame must unregister"),
    }
    assert!(!reg.is_registered(B));
    match handle_frame(&mut reg, A, "A", InboundFrame::Text("bye".to_string())) {
        FrameOutcome::Delivered { recipients, .. } => assert_eq!(recipients, vec![C]),
        _ => panic!("text frame must broadcast"),
    }
}

#[test]
fn close_with_reason_also_unregisters() {
    let mut reg = registry_with(&[A, B]);
    match handle_frame(&mut reg, A, "A", InboundFrame::Close(Some("done".to_string()))) {
        FrameOutcome::Closed => {}
        _ => panic!("a close frame must unregister"),
    }
    assert!(!reg.is_registered(A));
    assert!(reg.is_registered(B));
}

#[test]
fn membership_tracks_connects_and_disconnects() {
    let mut reg = PeerRegistry::new();
    assert_eq!(reg.peer_count(), 0);
    reg.insert(A);
    reg.insert(B);
    assert_eq!(reg.peer_count(), 2);
    reg.remove(A);
    assert_eq!(reg.peer_count(), 1);
    assert!(!reg.is_registered(A));
    assert!(reg.is_registered(B));
    reg.insert(A);
    reg.insert(C);
    reg.remove(B);
    assert_eq!(reg.peer_count(), 2);
    assert!(reg.is_registered(A));
    assert!(!reg.is_registered(B));
    assert!(reg.is_registered(C));
}

#[test]
fn insert_replaces_existing_entry_with_a_fresh_mailbox() {
    let mut reg = registry_with(&[A, B]);
    handle_frame(&mut reg, B, "B", InboundFrame::Text("old".to_string()));
    assert_eq!(reg.pending_count(A), Some(1));
    reg.insert(A);
    assert_eq!(reg.peer_count(), 2);
    assert_eq!(reg.pending_count(A), Some(0));
    assert_eq!(reg.take_next(A), None);
}

#[test]
fn broadcast_with_no_other_peers_delivers_nothing() {
    let mut reg = registry_with(&[A]);
    match handle_frame(&mut reg, A, "A", InboundFrame::Text("anyone?".to_string())) {
        FrameOutcome::Delivered { line, recipients } => {
            assert_eq!(line, "A: anyone?");
            assert!(recipients.is_empty());
        }
        _ => panic!("text frame must broadcast"),
    }
    assert_eq!(reg.take_next(A), None);
}

#[test]
fn take_next_and_pending_count_on_absent_peer() {
    let mut reg = registry_with(&[A]);
    assert_eq!(reg.take_next(D), None);
    assert_eq!(reg.pending_count(D), None);
}

#[test]
fn one_failed_recipient_does_not_stop_the_rest() {
    let mut reg = registry_with(&[A, B, C, D]);
    reg.close_mailbox(B);
    reg.close_mailbox(C);
    match handle_frame(&mut reg, A, "A", InboundFrame::Text("hi".to_string())) {
        FrameOutcome::Delivered { recipients, .. } => assert_eq!(recipients, vec![D]),
        _ => panic!("text frame must broadcast"),
    }
    assert_eq!(reg.take_next(B), None);
    assert_eq!(reg.take_next(C), None);
    assert_eq!(reg.take_next(D), Some("A: hi".to_string()));
}

#[test]
fn interleaved_senders_keep_per_sender_order() {
    let mut reg = registry_with(&[A, B, C]);
    handle_frame(&mut reg, A, "A", InboundFrame::Text("a1".to_string()));
    handle_frame(&mut reg, B, "B", InboundFrame::Text("b1".to_string()));
    handle_frame(&mut reg, A, "A", InboundFrame::Text("a2".to_string()));
    assert_eq!(reg.take_next(C), Some("A: a1".to_string()));
    assert_eq!(reg.take_next(C), Some("B: b1".to_string()));
    assert_eq!(reg.take_next(C), Some("A: a2".to_string()));
    assert_eq!(reg.take_next(B), Some("A: a1".to_string()));
    assert_eq!(reg.take_next(B), Some("A: a2".to_string()));
    assert_eq!(reg.take_next(B), None);
}
