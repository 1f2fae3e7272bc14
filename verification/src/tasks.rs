//! The task fabric: every long-running task multiplexes over the shared
//! shutdown signal and its own command queue, decides each turn through a
//! verified step function, and leaves its loop the moment the shutdown
//! signal arrives. The loops themselves — the channels, the awaits — live
//! with the caller; the decisions live here.

use vstd::prelude::*;

use crate::client::{frame_decision, handle_frame, ClientAction, MidiCmd};
use crate::exposed_state::{device_decision, DeviceAction, DeviceCmd, ExposedState};
use crate::router::Frame;

verus! {

/// What a task's multiplexed wait woke up with: the shared shutdown signal,
/// or the next inbound command.
#[derive(Debug)]
pub enum TaskEvent<C> {
    Shutdown,
    Command(C),
}

/// What the task does with it: leave the loop for good, or act and wait on.
#[derive(Debug)]
pub enum TaskStep<A> {
    Exit,
    Act(A),
}

/// An action against the hardware port capability.
#[derive(Clone, Copy, PartialEq, Eq, Structural, Debug)]
pub enum PortAction {
    /// Send one control-change event on the selected port.
    SendCc(u8, u8),
    /// Select the port with this index.
    SelectPort(usize),
}

/// One turn of the hardware task: a probe sends value zero, a signal sends
/// its event, a port choice selects a port; the shutdown signal ends the
/// loop with nothing sent.
pub fn midi_step(event: TaskEvent<MidiCmd>) -> (s: TaskStep<PortAction>)
    ensures
        match event {
            TaskEvent::Shutdown => s is Exit,
            TaskEvent::Command(cmd) => (match cmd {
                MidiCmd::Dummy(cc) => s == TaskStep::Act(PortAction::SendCc(cc, 0)),
                MidiCmd::Signal(cc, value) => s == TaskStep::Act(PortAction::SendCc(cc, value)),
                MidiCmd::Port(p) => s == TaskStep::Act(PortAction::SelectPort(p)),
            }),
        },
{
    match event {
        TaskEvent::Shutdown => TaskStep::Exit,
        TaskEvent::Command(cmd) => match cmd {
            MidiCmd::Dummy(cc) => TaskStep::Act(PortAction::SendCc(cc, 0)),
            MidiCmd::Signal(cc, value) => TaskStep::Act(PortAction::SendCc(cc, value)),
            MidiCmd::Port(p) => TaskStep::Act(PortAction::SelectPort(p)),
        },
    }
}

/// One turn of the exposure task: commands decide as
/// [`device_decision`] demands; the shutdown signal ends the loop with the
/// mirror untouched and nothing sent.
pub fn device_step(state: &mut ExposedState, event: TaskEvent<DeviceCmd>, clipboard: Option<
    String,
>) -> (s: TaskStep<DeviceAction>)
    ensures
        match event {
            TaskEvent::Shutdown => s is Exit && *final(state) == *old(state),
            TaskEvent::Command(cmd) => (match s {
                TaskStep::Act(a) => device_decision(*old(state), cmd, clipboard, *final(state), a),
                TaskStep::Exit => false,
            }),
        },
{
    match event {
        TaskEvent::Shutdown => TaskStep::Exit,
        TaskEvent::Command(cmd) => TaskStep::Act(state.handle_command(cmd, clipboard)),
    }
}

/// One turn of the session task while connected: inbound frames decide as
/// [`frame_decision`] demands, under the passthrough flag as it stands at
/// that moment; the shutdown signal ends the loop with nothing sent.
pub fn session_step(event: TaskEvent<Frame>, passthrough: bool) -> (s: TaskStep<ClientAction>)
    ensures
        match event {
            TaskEvent::Shutdown => s is Exit,
            TaskEvent::Command(frame) => (match s {
                TaskStep::Act(a) => frame_decision(frame@, passthrough, a),
                TaskStep::Exit => false,
            }),
        },
{
    match event {
        TaskEvent::Shutdown => TaskStep::Exit,
        TaskEvent::Command(frame) => TaskStep::Act(handle_frame(&frame, passthrough)),
    }
}

/// How many events a task loop consumes before it rests: everything up to
/// and including the first shutdown signal, or the whole stream if none
/// arrives.
pub open spec fn events_consumed<C>(events: Seq<TaskEvent<C>>) -> int
    decreases events.len(),
{
    if events.len() == 0 {
        0
    } else if events[0] is Shutdown {
        1
    } else {
        1 + events_consumed(events.drop_first())
    }
}

/// The actions a task loop performs over a stream of events: one per
/// command, in stream order, and none at or after the first shutdown
/// signal. `act` is the task's decision on a single command.
pub open spec fn run_actions<C, A>(act: spec_fn(C) -> A, events: Seq<TaskEvent<C>>) -> Seq<A>
    decreases events.len(),
{
    if events.len() == 0 {
        Seq::empty()
    } else {
        match events[0] {
            TaskEvent::Shutdown => Seq::empty(),
            TaskEvent::Command(c) => seq![act(c)] + run_actions(act, events.drop_first()),
        }
    }
}

/// Clean shutdown: with the shutdown signal standing at position `i` of the
/// stream, the loop consumes at most the `i + 1` events up to the signal,
/// and all its actions come from events strictly before it — after the
/// signal nothing is sent any more.
pub proof fn lemma_clean_shutdown<C, A>(act: spec_fn(C) -> A, events: Seq<TaskEvent<C>>, i: int)
    requires
        0 <= i < events.len(),
        events[i] is Shutdown,
    ensures
        events_consumed(events) <= i + 1,
        run_actions(act, events) == run_actions(act, events.take(i)),
        run_actions(act, events).len() <= i,
    decreases i,
{
    if events[0] is Shutdown {
        if i > 0 {
            assert(events.take(i)[0] == events[0]);
        }
    } else {
        assert(i >= 1);
        assert(events.drop_first()[i - 1] == events[i]);
        lemma_clean_shutdown(act, events.drop_first(), i - 1);
        assert(events.take(i)[0] == events[0]);
        assert(events.take(i).drop_first() =~= events.drop_first().take(i - 1));
    }
}

} // verus!
