use audio_control::audio::{devices_to_show, DeviceReport};
use audio_control::audio::{app_name_from_property, connect_step, drain_again, ConnectStep, IterateOutcome};

#[test]
fn app_name_from_property_value() {
    assert_eq!(app_name_from_property(Some(b"Firefox\0")), "Firefox");
    assert_eq!(app_name_from_property(Some(b"mpv")), "mpv");
    assert_eq!(app_name_from_property(Some(b"a\0\0")), "a\0");
    assert_eq!(app_name_from_property(Some(&[0xff, 0xfe])), "Unknown");
    assert_eq!(app_name_from_property(Some("Caf\u{e9}\0".as_bytes())), "Caf\u{e9}");
    assert_eq!(app_name_from_property(Some(b"")), "");
    assert_eq!(app_name_from_property(None), "Unknown");
}

#[test]
fn connecting_waits_for_ready() {
    assert_eq!(connect_step(IterateOutcome::Success, false), ConnectStep::Wait);
    assert_eq!(connect_step(IterateOutcome::Success, true), ConnectStep::Connected);
    assert_eq!(connect_step(IterateOutcome::Quit, false), ConnectStep::Connected);
    assert_eq!(connect_step(IterateOutcome::Failure, true), ConnectStep::Failed);
}

#[test]
fn draining_stops_after_a_hundred_turns_or_a_failed_turn() {
    assert!(drain_again(1, IterateOutcome::Success));
    assert!(drain_again(99, IterateOutcome::Success));
    assert!(!drain_again(100, IterateOutcome::Success));
    assert!(!drain_again(3, IterateOutcome::Quit));
    assert!(!drain_again(3, IterateOutcome::Failure));
}

fn report(index: u32, name: &str, monitor: Option<u32>) -> DeviceReport {
    DeviceReport {
        index,
        name: name.to_string(),
        description: format!("{} device", name),
        monitor_of_sink: monitor,
    }
}

#[test]
fn input_list_leaves_out_monitors_and_marks_default() {
    let reports = vec![report(0, "mic", None), report(1, "out.monitor", Some(4)), report(2, "cam", None)];
    let shown = devices_to_show(&reports, &Some("cam".to_string()), true);
    assert_eq!(shown.len(), 2);
    assert_eq!(shown[0].index, 0);
    assert_eq!(shown[0].name, "mic");
    assert_eq!(shown[0].description, "mic device");
    assert!(!shown[0].is_default);
    assert_eq!(shown[1].index, 2);
    assert!(shown[1].is_default);
}

#[test]
fn playback_list_keeps_all_and_marks_default() {
    let reports = vec![report(3, "hdmi", Some(9)), report(5, "speakers", None)];
    let shown = devices_to_show(&reports, &Some("speakers".to_string()), false);
    assert_eq!(shown.len(), 2);
    assert!(!shown[0].is_default);
    assert!(shown[1].is_default);
    let shown = devices_to_show(&reports, &None, false);
    assert!(shown.iter().all(|d| !d.is_default));
    assert!(devices_to_show(&Vec::new(), &None, true).is_empty());
}
