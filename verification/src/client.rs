//! Authority-side session client: interpreting the frames received from the
//! relay service, behind the local passthrough flag.

use vstd::prelude::*;

use crate::router::{Frame, FrameView};

verus! {

/// The login request a user issues: where the relay lives and the shared
/// secret to present.
#[derive(Clone, Debug)]
pub struct Login {
    pub url: String,
    pub pass: String,
}

/// Connectivity and text status surfaced to the user interface.
#[derive(Debug)]
pub enum Status {
    Connection(bool),
    Text(String),
}

/// A command for the task owning the hardware port.
#[derive(Clone, Copy, PartialEq, Eq, Structural, Debug)]
pub enum MidiCmd {
    /// Probe a controller with value zero.
    Dummy(u8),
    /// Send one control-change event.
    Signal(u8, u8),
    /// Select the port with this index.
    Port(usize),
}

/// What the session client does with one inbound frame.
#[derive(Debug)]
pub enum ClientAction {
    /// Surface a status event upward.
    Report(Status),
    /// Hand a command to the hardware task.
    Forward(MidiCmd),
    /// Drop the frame.
    Ignore,
}

/// One raw control-change frame is two bytes: controller, then value.
/// Longer frames carry the same two leading bytes; shorter ones are
/// malformed and yield nothing.
pub fn parse_message(data: Vec<u8>) -> (r: Option<(u8, u8)>)
    ensures
        data@.len() >= 2 ==> r == Some((data@[0], data@[1])),
        data@.len() < 2 ==> r is None,
{
    if data.len() >= 2 {
        Some((data[0], data[1]))
    } else {
        None
    }
}

/// What the session client must do with one inbound frame. A text frame
/// surfaces as status text (the first one carries the server display name).
/// Any other data frame is raw control-change bytes: with the passthrough
/// flag set and at least two bytes it becomes an outgoing hardware command;
/// with the flag cleared, or malformed (fewer than two bytes), it is
/// discarded without error. A close frame converges on the connectivity-
/// lost status that a transport error also produces.
pub open spec fn frame_decision(frame: FrameView, passthrough: bool, a: ClientAction) -> bool {
    match frame {
        FrameView::Text(t) => (match a {
            ClientAction::Report(Status::Text(s)) => s@ == t,
            _ => false,
        }),
        FrameView::Binary(data) => (if passthrough && data.len() >= 2 {
            a == ClientAction::Forward(MidiCmd::Signal(data[0], data[1]))
        } else {
            a == ClientAction::Ignore
        }),
        FrameView::Close => a == ClientAction::Report(Status::Connection(false)),
    }
}

/// Interprets one frame received over the authority's connection, as
/// [`frame_decision`] demands. The passthrough flag is consulted per frame:
/// it can change mid-stream.
pub fn handle_frame(frame: &Frame, passthrough: bool) -> (a: ClientAction)
    ensures
        frame_decision(frame@, passthrough, a),
{
    match frame {
        Frame::Text(t) => ClientAction::Report(Status::Text(t.clone())),
        Frame::Binary(data) => {
            if !passthrough {
                return ClientAction::Ignore;
            }
            if data.len() >= 2 {
                ClientAction::Forward(MidiCmd::Signal(data[0], data[1]))
            } else {
                ClientAction::Ignore
            }
        },
        Frame::Close => ClientAction::Report(Status::Connection(false)),
    }
}

/// The hardware commands a stream of inbound data frames produces, given
/// the state of the passthrough flag at the moment each frame was
/// processed: `None` where the frame was dropped.
pub open spec fn gated_signals(frames: Seq<Seq<u8>>, flags: Seq<bool>) -> Seq<Option<(u8, u8)>>
    recommends
        frames.len() == flags.len(),
{
    Seq::new(
        frames.len(),
        |i: int|
            if flags[i] && frames[i].len() >= 2 {
                Some((frames[i][0], frames[i][1]))
            } else {
                None
            },
    )
}

/// Passthrough gating over a whole stream: the decision on any one data
/// frame forwards a hardware command exactly when the passthrough flag
/// stood set at the moment that specific frame was processed and the frame
/// is well formed, and the command carries that frame's two leading bytes —
/// the stream of commands is [`gated_signals`].
pub proof fn lemma_passthrough_gating(
    frames: Seq<Seq<u8>>,
    flags: Seq<bool>,
    i: int,
    a: ClientAction,
)
    requires
        frames.len() == flags.len(),
        0 <= i < frames.len(),
        frame_decision(FrameView::Binary(frames[i]), flags[i], a),
    ensures
        gated_signals(frames, flags)[i] is Some <==> (flags[i] && frames[i].len() >= 2),
        a is Forward <==> gated_signals(frames, flags)[i] is Some,
        match a {
            ClientAction::Forward(cmd) => {
                &&& gated_signals(frames, flags)[i] == Some((frames[i][0], frames[i][1]))
                &&& cmd == MidiCmd::Signal(frames[i][0], frames[i][1])
            },
            _ => gated_signals(frames, flags)[i] is None,
        },
{
}

} // verus!
