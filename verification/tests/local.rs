//! Authority-side behaviour: the exposure mirror, the clipboard listing,
//! the passthrough gate, and the task step functions.

use midi_relay::client::{handle_frame, ClientAction, MidiCmd, Status};
use midi_relay::devices::{Device, DeviceUpdate, UIType};
use midi_relay::exposed_state::{status_reaction, DeviceAction, DeviceCmd, ExposedState};
use midi_relay::router::Frame;
use midi_relay::tasks::{device_step, midi_step, session_step, PortAction, TaskEvent, TaskStep};

fn device(cc: u8, ui_type: UIType, description: &str) -> Device {
    Device::new(cc, ui_type, description.to_string())
}

fn mirror_with(devices: Vec<Device>) -> ExposedState {
    let mut state = ExposedState::new();
    state.update_device(devices);
    state
}

#[test]
fn new_mirror_is_empty_and_logged_out() {
    let state = ExposedState::new();
    assert!(state.devices.is_empty());
    assert!(state.login.is_none());
}

#[test]
fn copy_renders_one_line_per_device() {
    let state = mirror_with(vec![
        device(1, UIType::Check, "x"),
        device(64, UIType::Slide, "level"),
    ]);
    assert_eq!(state.copy_to_clipboard(), "1,check,x\n64,slide,level\n");
}

#[test]
fn copy_of_empty_mirror_is_empty() {
    assert_eq!(ExposedState::new().copy_to_clipboard(), "");
}

#[test]
fn paste_reads_the_listing_back() {
    let state = ExposedState::new();
    match state.paste("1,check,x\n64,slide,level\n") {
        DeviceUpdate::Add(devices) => {
            assert_eq!(devices.len(), 2);
            assert_eq!(devices[0].cc, 1);
            assert_eq!(devices[0].ui_type, UIType::Check);
            assert_eq!(devices[0].description, "x");
            assert_eq!(devices[1].cc, 64);
            assert_eq!(devices[1].ui_type, UIType::Slide);
            assert_eq!(devices[1].description, "level");
        }
        _ => panic!("a paste is an addition"),
    }
}

#[test]
fn paste_skips_lines_that_do_not_parse() {
    let state = ExposedState::new();
    let content = "zz,check,a\n7,check,b\n300,check,c\n8,dial,d\n9,slide\n10,slide,e,extra\n";
    match state.paste(content) {
        DeviceUpdate::Add(devices) => {
            assert_eq!(devices.len(), 2);
            assert_eq!(devices[0].cc, 7);
            assert_eq!(devices[1].cc, 10);
            assert_eq!(devices[1].description, "e");
        }
        _ => panic!("a paste is an addition"),
    }
}

#[test]
fn copy_then_paste_restores_the_devices() {
    let state = mirror_with(vec![
        device(3, UIType::Slide, "a"),
        device(9, UIType::Check, "b"),
        device(200, UIType::Slide, "c"),
    ]);
    let text = state.copy_to_clipboard();
    match state.paste(&text) {
        DeviceUpdate::Add(devices) => {
            assert_eq!(devices.len(), 3);
            for (found, kept) in devices.iter().zip(state.devices.iter()) {
                assert_eq!(found.cc, kept.cc);
                assert_eq!(found.ui_type, kept.ui_type);
                assert_eq!(found.description, kept.description);
            }
        }
        _ => panic!("a paste is an addition"),
    }
}

#[test]
fn paste_without_trailing_newline_still_parses() {
    let state = ExposedState::new();
    match state.paste("1,check,x") {
        DeviceUpdate::Add(devices) => {
            assert_eq!(devices.len(), 1);
            assert_eq!(devices[0].cc, 1);
        }
        _ => panic!("a paste is an addition"),
    }
}

#[test]
fn empty_descriptions_survive_the_round_trip() {
    let state = mirror_with(vec![device(0, UIType::Check, ""), device(255, UIType::Slide, "")]);
    let text = state.copy_to_clipboard();
    assert_eq!(text, "0,check,\n255,slide,\n");
    match state.paste(&text) {
        DeviceUpdate::Add(devices) => {
            assert_eq!(devices.len(), 2);
            assert_eq!(devices[0].cc, 0);
            assert_eq!(devices[0].description, "");
            assert_eq!(devices[1].cc, 255);
        }
        _ => panic!("a paste is an addition"),
    }
}

#[test]
fn login_command_is_remembered() {
    let mut state = ExposedState::new();
    let login = midi_relay::client::Login { url: "host:3000".to_string(), pass: "hush".to_string() };
    let action = state.handle_command(DeviceCmd::Login(login), None);
    assert!(matches!(action, DeviceAction::Nothing));
    let stored = state.login.as_ref().expect("the login must be remembered");
    assert_eq!(stored.url, "host:3000");
    assert_eq!(stored.pass, "hush");
}

#[test]
fn removal_indices_become_controller_keys() {
    let mut state = mirror_with(vec![
        device(5, UIType::Check, "a"),
        device(9, UIType::Slide, "b"),
    ]);
    let action = state.handle_command(DeviceCmd::Update(DeviceUpdate::Remove(vec![1, 7])), None);
    match action {
        DeviceAction::Post(DeviceUpdate::Remove(keys)) => assert_eq!(keys, vec![9]),
        _ => panic!("a removal is posted as controller keys"),
    }
    assert_eq!(state.devices.len(), 2);
}

#[test]
fn clear_command_empties_the_mirror_at_once() {
    let mut state = mirror_with(vec![device(5, UIType::Check, "a")]);
    let action = state.handle_command(DeviceCmd::Update(DeviceUpdate::Clear), None);
    assert!(matches!(action, DeviceAction::Post(DeviceUpdate::Clear)));
    assert!(state.devices.is_empty());
}

#[test]
fn copy_command_hands_out_the_listing() {
    let mut state = mirror_with(vec![device(5, UIType::Check, "a")]);
    match state.handle_command(DeviceCmd::CopyToClipboard, None) {
        DeviceAction::SetClipboard(text) => assert_eq!(text, "5,check,a\n"),
        _ => panic!("copying hands the listing to the caller"),
    }
}

#[test]
fn paste_command_posts_the_clipboard_content() {
    let mut state = ExposedState::new();
    match state.handle_command(DeviceCmd::Paste, Some("7,check,m\n".to_string())) {
        DeviceAction::Post(DeviceUpdate::Add(devices)) => {
            assert_eq!(devices.len(), 1);
            assert_eq!(devices[0].cc, 7);
        }
        _ => panic!("a paste with content posts an addition"),
    }
    let action = state.handle_command(DeviceCmd::Paste, None);
    assert!(matches!(action, DeviceAction::Nothing));
}

#[test]
fn store_response_replaces_the_mirror() {
    let mut state = mirror_with(vec![device(5, UIType::Check, "a")]);
    state.update_device(vec![device(1, UIType::Slide, "s"), device(2, UIType::Check, "c")]);
    assert_eq!(state.devices.len(), 2);
    assert_eq!(state.devices[0].cc, 1);
    assert_eq!(state.devices[1].cc, 2);
}

#[test]
fn lost_connectivity_clears_the_exposure_view() {
    match status_reaction(&Status::Connection(false)) {
        Some(DeviceCmd::Update(DeviceUpdate::Clear)) => {}
        _ => panic!("losing the connection must clear the view"),
    }
    assert!(status_reaction(&Status::Connection(true)).is_none());
    assert!(status_reaction(&Status::Text("server one".to_string())).is_none());
}

#[test]
fn passthrough_gates_each_frame_as_it_stands() {
    let frames = [vec![64u8, 127], vec![65, 1], vec![66, 2]];
    let flags = [true, false, true];
    let mut sent = Vec::new();
    for (data, flag) in frames.iter().zip(flags.iter()) {
        match handle_frame(&Frame::Binary(data.clone()), *flag) {
            ClientAction::Forward(MidiCmd::Signal(cc, value)) => sent.push((cc, value)),
            ClientAction::Ignore => {}
            _ => panic!("a data frame reports nothing"),
        }
    }
    assert_eq!(sent, vec![(64, 127), (66, 2)]);
}

#[test]
fn malformed_frames_are_dropped_without_error() {
    assert!(matches!(handle_frame(&Frame::Binary(vec![]), true), ClientAction::Ignore));
    assert!(matches!(handle_frame(&Frame::Binary(vec![9]), true), ClientAction::Ignore));
}

#[test]
fn text_frames_surface_as_status() {
    match handle_frame(&Frame::Text("server one".to_string()), false) {
        ClientAction::Report(Status::Text(t)) => assert_eq!(t, "server one"),
        _ => panic!("a text frame surfaces as status text"),
    }
}

#[test]
fn close_frames_surface_as_lost_connectivity() {
    match handle_frame(&Frame::Close, true) {
        ClientAction::Report(Status::Connection(up)) => assert!(!up),
        _ => panic!("a close surfaces as connectivity lost"),
    }
}

#[test]
fn midi_commands_become_port_actions() {
    match midi_step(TaskEvent::Command(MidiCmd::Dummy(10))) {
        TaskStep::Act(action) => assert_eq!(action, PortAction::SendCc(10, 0)),
        TaskStep::Exit => panic!("a command is not a shutdown"),
    }
    match midi_step(TaskEvent::Command(MidiCmd::Signal(64, 127))) {
        TaskStep::Act(action) => assert_eq!(action, PortAction::SendCc(64, 127)),
        TaskStep::Exit => panic!("a command is not a shutdown"),
    }
    match midi_step(TaskEvent::Command(MidiCmd::Port(2))) {
        TaskStep::Act(action) => assert_eq!(action, PortAction::SelectPort(2)),
        TaskStep::Exit => panic!("a command is not a shutdown"),
    }
}

#[test]
fn every_task_exits_on_shutdown_without_acting() {
    assert!(matches!(midi_step(TaskEvent::Shutdown), TaskStep::Exit));
    assert!(matches!(session_step(TaskEvent::Shutdown, true), TaskStep::Exit));
    let mut state = mirror_with(vec![device(5, UIType::Check, "a")]);
    assert!(matches!(device_step(&mut state, TaskEvent::Shutdown, None), TaskStep::Exit));
    assert_eq!(state.devices.len(), 1);
}

#[test]
fn session_step_forwards_gated_frames() {
    match session_step(TaskEvent::Command(Frame::Binary(vec![64, 127])), true) {
        TaskStep::Act(ClientAction::Forward(MidiCmd::Signal(cc, value))) => {
            assert_eq!((cc, value), (64, 127));
        }
        _ => panic!("with passthrough on, the frame becomes a command"),
    }
    match session_step(TaskEvent::Command(Frame::Binary(vec![64, 127])), false) {
        TaskStep::Act(ClientAction::Ignore) => {}
        _ => panic!("with passthrough off, the frame is dropped"),
    }
}
