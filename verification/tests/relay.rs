//! Relay-side behaviour: session admission, the exposure store, and message
//! routing.

use midi_relay::client::{handle_frame, ClientAction, MidiCmd};
use midi_relay::devices::{Device, DeviceUpdate, UIType};
use midi_relay::router::{Frame, MessageRouter};
use midi_relay::session::{LoginResult, RejectReason, SessionManager, SessionState};
use midi_relay::store::ExposureStore;

fn device(cc: u8, ui_type: UIType, description: &str) -> Device {
    Device::new(cc, ui_type, description.to_string())
}

#[test]
fn login_accepts_one_authority() {
    let mut mgr = SessionManager::new("hush".to_string(), "server one".to_string());
    assert_eq!(mgr.state(), SessionState::Idle);
    match mgr.login(&"hush".to_string()) {
        LoginResult::Accept(name) => assert_eq!(name, "server one"),
        LoginResult::Reject(_) => panic!("correct secret was rejected"),
    }
    assert_eq!(mgr.state(), SessionState::Active);
}

#[test]
fn second_login_is_turned_away() {
    let mut mgr = SessionManager::new("hush".to_string(), "server one".to_string());
    assert!(matches!(mgr.login(&"hush".to_string()), LoginResult::Accept(_)));
    match mgr.login(&"hush".to_string()) {
        LoginResult::Reject(RejectReason::AlreadyConnected) => {}
        _ => panic!("second login must see AlreadyConnected"),
    }
    assert_eq!(mgr.state(), SessionState::Active);
}

#[test]
fn wrong_secret_is_rejected_without_side_effects() {
    let mut mgr = SessionManager::new("hush".to_string(), "server one".to_string());
    match mgr.login(&"loud".to_string()) {
        LoginResult::Reject(RejectReason::InvalidSecret) => {}
        _ => panic!("wrong secret must see InvalidSecret"),
    }
    assert_eq!(mgr.state(), SessionState::Idle);
    assert!(matches!(mgr.login(&"hush".to_string()), LoginResult::Accept(_)));
    match mgr.login(&"loud".to_string()) {
        LoginResult::Reject(RejectReason::InvalidSecret) => {}
        _ => panic!("wrong secret must see InvalidSecret while active too"),
    }
    assert_eq!(mgr.state(), SessionState::Active);
}

#[test]
fn logout_is_idempotent_and_frees_the_slot() {
    let mut mgr = SessionManager::new("hush".to_string(), "server one".to_string());
    assert!(matches!(mgr.login(&"hush".to_string()), LoginResult::Accept(_)));
    mgr.logout();
    assert_eq!(mgr.state(), SessionState::Idle);
    mgr.logout();
    mgr.on_transport_close();
    mgr.on_transport_error();
    assert_eq!(mgr.state(), SessionState::Idle);
    assert!(matches!(mgr.login(&"hush".to_string()), LoginResult::Accept(_)));
}

fn table_of(result: Result<Vec<Device>, midi_relay::store::Unauthorized>) -> Vec<Device> {
    match result {
        Ok(table) => table,
        Err(_) => panic!("update with the right secret must succeed"),
    }
}

#[test]
fn add_twice_yields_the_same_table() {
    let mut store = ExposureStore::new("hush".to_string());
    let secret = "hush".to_string();
    let once = table_of(store.apply_update(
        &secret,
        &DeviceUpdate::Add(vec![device(1, UIType::Check, "x")]),
    ));
    let twice = table_of(store.apply_update(
        &secret,
        &DeviceUpdate::Add(vec![device(1, UIType::Check, "x")]),
    ));
    assert_eq!(once.len(), 1);
    assert_eq!(twice.len(), 1);
    assert_eq!(once[0].cc, twice[0].cc);
    assert_eq!(once[0].ui_type, twice[0].ui_type);
    assert_eq!(once[0].description, twice[0].description);
}

#[test]
fn remove_of_absent_key_is_a_successful_no_op() {
    let mut store = ExposureStore::new("hush".to_string());
    let secret = "hush".to_string();
    let before = table_of(store.apply_update(
        &secret,
        &DeviceUpdate::Add(vec![device(7, UIType::Slide, "level")]),
    ));
    let after = table_of(store.apply_update(&secret, &DeviceUpdate::Remove(vec![99])));
    assert_eq!(before.len(), after.len());
    assert_eq!(after[0].cc, 7);
    assert_eq!(after[0].description, "level");
}

#[test]
fn remove_key_above_byte_range_is_a_no_op() {
    let mut store = ExposureStore::new("hush".to_string());
    let secret = "hush".to_string();
    table_of(store.apply_update(
        &secret,
        &DeviceUpdate::Add(vec![device(44, UIType::Check, "m")]),
    ));
    let after = table_of(store.apply_update(&secret, &DeviceUpdate::Remove(vec![300])));
    assert_eq!(after.len(), 1);
    assert_eq!(after[0].cc, 44);
}

#[test]
fn snapshot_is_sorted_and_keys_unique() {
    let mut store = ExposureStore::new("hush".to_string());
    let secret = "hush".to_string();
    table_of(store.apply_update(
        &secret,
        &DeviceUpdate::Add(vec![
            device(9, UIType::Check, "c"),
            device(3, UIType::Slide, "a"),
            device(200, UIType::Check, "d"),
        ]),
    ));
    table_of(store.apply_update(
        &secret,
        &DeviceUpdate::Add(vec![device(3, UIType::Check, "a2")]),
    ));
    let table = table_of(store.apply_update(
        &secret,
        &DeviceUpdate::Add(vec![device(100, UIType::Slide, "b")]),
    ));
    assert_eq!(table.len(), 4);
    for pair in table.windows(2) {
        assert!(pair[0].cc < pair[1].cc);
    }
    assert_eq!(table[0].cc, 3);
    assert_eq!(table[0].description, "a2");
    assert_eq!(table[0].ui_type, UIType::Check);
}

#[test]
fn duplicate_keys_in_one_batch_last_write_wins() {
    let mut store = ExposureStore::new("hush".to_string());
    let table = table_of(store.apply_update(
        &"hush".to_string(),
        &DeviceUpdate::Add(vec![
            device(5, UIType::Check, "first"),
            device(5, UIType::Slide, "second"),
        ]),
    ));
    assert_eq!(table.len(), 1);
    assert_eq!(table[0].cc, 5);
    assert_eq!(table[0].ui_type, UIType::Slide);
    assert_eq!(table[0].description, "second");
}

#[test]
fn wrong_secret_is_unauthorized_and_changes_nothing() {
    let mut store = ExposureStore::new("hush".to_string());
    let secret = "hush".to_string();
    table_of(store.apply_update(
        &secret,
        &DeviceUpdate::Add(vec![device(1, UIType::Check, "x")]),
    ));
    let refused = store.apply_update(&"loud".to_string(), &DeviceUpdate::Clear);
    assert!(refused.is_err());
    let table = table_of(store.apply_update(&secret, &DeviceUpdate::Remove(vec![])));
    assert_eq!(table.len(), 1);
    assert_eq!(table[0].cc, 1);
}

#[test]
fn clear_empties_the_table() {
    let mut store = ExposureStore::new("hush".to_string());
    let secret = "hush".to_string();
    table_of(store.apply_update(
        &secret,
        &DeviceUpdate::Add(vec![device(1, UIType::Check, "x"), device(2, UIType::Slide, "y")]),
    ));
    let table = table_of(store.apply_update(&secret, &DeviceUpdate::Clear));
    assert!(table.is_empty());
}

#[test]
fn add_then_remove_scenario() {
    let mut store = ExposureStore::new("hush".to_string());
    let secret = "hush".to_string();
    let added = table_of(store.apply_update(
        &secret,
        &DeviceUpdate::Add(vec![device(10, UIType::Check, "Mute")]),
    ));
    assert_eq!(added.len(), 1);
    assert_eq!(added[0].cc, 10);
    assert_eq!(added[0].ui_type, UIType::Check);
    assert_eq!(added[0].description, "Mute");
    let removed = table_of(store.apply_update(&secret, &DeviceUpdate::Remove(vec![10])));
    assert!(removed.is_empty());
}

#[test]
fn idle_session_drops_viewer_frames() {
    let mut router = MessageRouter::new(10);
    let accepted = router.forward_viewer_frame(false, Frame::Binary(vec![64, 127]));
    assert!(!accepted);
    assert!(router.next_for_authority().is_none());
}

#[test]
fn active_session_forwards_viewer_frames_in_order() {
    let mut router = MessageRouter::new(10);
    assert!(router.forward_viewer_frame(true, Frame::Binary(vec![1, 2])));
    assert!(router.forward_viewer_frame(true, Frame::Binary(vec![3, 4])));
    match router.next_for_authority() {
        Some(Frame::Binary(data)) => assert_eq!(data, vec![1, 2]),
        _ => panic!("first frame must come out first"),
    }
    match router.next_for_authority() {
        Some(Frame::Binary(data)) => assert_eq!(data, vec![3, 4]),
        _ => panic!("second frame must follow"),
    }
    assert!(router.next_for_authority().is_none());
}

#[test]
fn full_bridge_drops_the_newest_frame() {
    let mut router = MessageRouter::new(2);
    assert!(router.forward_viewer_frame(true, Frame::Binary(vec![1, 1])));
    assert!(router.forward_viewer_frame(true, Frame::Binary(vec![2, 2])));
    assert!(!router.forward_viewer_frame(true, Frame::Binary(vec![3, 3])));
    match router.next_for_authority() {
        Some(Frame::Binary(data)) => assert_eq!(data, vec![1, 1]),
        _ => panic!("oldest frame must survive"),
    }
    match router.next_for_authority() {
        Some(Frame::Binary(data)) => assert_eq!(data, vec![2, 2]),
        _ => panic!("second frame must survive"),
    }
    assert!(router.next_for_authority().is_none());
}

#[test]
fn broadcast_reaches_every_viewer() {
    let mut router = MessageRouter::new(10);
    let a = router.add_viewer();
    let b = router.add_viewer();
    router.broadcast(&Frame::Text("hello".to_string()));
    for id in [a, b] {
        match router.next_for_viewer(id) {
            Some(Frame::Text(t)) => assert_eq!(t, "hello"),
            _ => panic!("every viewer must receive the broadcast"),
        }
        assert!(router.next_for_viewer(id).is_none());
    }
    assert!(router.next_for_viewer(17).is_none());
}

#[test]
fn login_to_hardware_command_scenario() {
    let mut mgr = SessionManager::new("hush".to_string(), "server one".to_string());
    let name = match mgr.login(&"hush".to_string()) {
        LoginResult::Accept(name) => name,
        LoginResult::Reject(_) => panic!("authority with the right secret must get in"),
    };
    assert_eq!(name, "server one");
    let mut router = MessageRouter::new(10);
    router.add_viewer();
    let active = mgr.state() == SessionState::Active;
    assert!(router.forward_viewer_frame(active, Frame::Binary(vec![64, 127])));
    let frame = router.next_for_authority().expect("the frame must reach the authority");
    match handle_frame(&frame, true) {
        ClientAction::Forward(MidiCmd::Signal(cc, value)) => {
            assert_eq!(cc, 64);
            assert_eq!(value, 127);
        }
        _ => panic!("with passthrough on, the frame must become a hardware command"),
    }
}
