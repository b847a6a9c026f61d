//! The per-connection inbound-loop decisions: what one frame read from a
//! peer's connection does to the shared registry, and the wire format of a
//! broadcast line.
//!
//! The network transport reads frames and performs the returned outcome (it
//! writes the line on each recipient's connection, or stops the loop); every
//! decision in between — who receives, how the line is formatted, when the
//! peer is unregistered — is made and verified here.

use crate::registry::{delivers_to, spec_broadcast, spec_remove, PeerRegistry};
use vstd::prelude::*;
use vstd::string::StringExecFns;

verus! {

/// One inbound frame as the framing layer hands it up: text to broadcast, a
/// request to close (with an optional reason, which is ignored), or any other
/// frame kind (binary, unknown), which is not broadcast.
pub enum InboundFrame {
    Text(String),
    Close(Option<String>),
    Unsupported,
}

/// What the inbound loop decided for one frame: a line was fanned out to
/// `recipients` and the loop goes on reading; the peer was unregistered and
/// the loop stops; or the frame was ignored and the loop goes on reading.
pub enum FrameOutcome {
    Delivered { line: String, recipients: Vec<u64> },
    Closed,
    Ignored,
}

/// The broadcast wire format: the sender's identity, a separating colon and
/// space, then the original text.
pub open spec fn line_spec(label: Seq<char>, text: Seq<char>) -> Seq<char> {
    label + ": "@ + text
}

/// Formats one broadcast line as `"<sender>: <text>"`.
pub fn format_line(label: &str, text: &str) -> (r: String)
    ensures
        r@ == line_spec(label@, text@),
{
    let mut line = label.to_owned();
    line.append(": ");
    line.append(text);
    line
}

/// The inbound loop's decision for one frame read from the connection of the
/// peer registered as `sender` and labelled `label`:
///
/// - a `Text` frame is formatted as `"<label>: <text>"` and enqueued onto the
///   mailbox of every other registered open peer — never the sender's own;
/// - a `Close` frame unregisters the sender (idempotently) and stops the loop;
/// - any other frame leaves the registry untouched and the loop running.
pub fn handle_frame(reg: &mut PeerRegistry, sender: u64, label: &str, frame: InboundFrame) -> (out:
    FrameOutcome)
    requires
        old(reg).wf(),
    ensures
        final(reg).wf(),
        match frame {
            InboundFrame::Text(t) => {
                &&& final(reg)@ == spec_broadcast(old(reg)@, sender, line_spec(label@, t@))
                &&& match out {
                    FrameOutcome::Delivered { line, recipients } => {
                        &&& line@ == line_spec(label@, t@)
                        &&& forall|k: int|
                            0 <= k < recipients@.len() ==> delivers_to(
                                old(reg)@,
                                sender,
                                #[trigger] recipients@[k],
                            )
                        &&& forall|id: u64|
                            delivers_to(old(reg)@, sender, id) ==> recipients@.contains(id)
                        &&& recipients@.no_duplicates()
                    },
                    _ => false,
                }
            },
            InboundFrame::Close(_) => {
                &&& final(reg)@ == spec_remove(old(reg)@, sender)
                &&& out is Closed
            },
            InboundFrame::Unsupported => {
                &&& final(reg)@ == old(reg)@
                &&& out is Ignored
            },
        },
{
    match frame {
        InboundFrame::Text(t) => {
            let line = format_line(label, t.as_str());
            let recipients = reg.broadcast_except(sender, line.as_str());
            FrameOutcome::Delivered { line, recipients }
        },
        InboundFrame::Close(_) => {
            reg.remove(sender);
            FrameOutcome::Closed
        },
        InboundFrame::Unsupported => FrameOutcome::Ignored,
    }
}

} // verus!
