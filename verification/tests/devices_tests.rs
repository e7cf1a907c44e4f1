use audio_control::audio::AudioDevice;
use audio_control::decimal::decimal_text;
use audio_control::devices::{
    device_entry_classes, device_icon, device_widget_name_of, empty_device_list_text,
    is_stale_device_widget, plan_device_list,
};
use audio_control::widgets::EntryStep;

fn device(index: u32, is_default: bool) -> AudioDevice {
    AudioDevice {
        index,
        name: format!("sink{}", index),
        description: format!("Sink {}", index),
        is_default,
    }
}

fn names(v: &[&str]) -> Vec<String> {
    v.iter().map(|s| s.to_string()).collect()
}

#[test]
fn decimal_text_writes_numbers() {
    assert_eq!(decimal_text(0), "0");
    assert_eq!(decimal_text(7), "7");
    assert_eq!(decimal_text(1234567890), "1234567890");
    assert_eq!(decimal_text(u32::MAX), "4294967295");
}

#[test]
fn device_widget_names() {
    assert_eq!(device_widget_name_of(42), "device-42");
    assert_eq!(device_widget_name_of(0), "device-0");
}

#[test]
fn stale_device_widgets() {
    let devices = vec![device(3, false), device(10, true)];
    assert!(!is_stale_device_widget(&"device-3".to_string(), &devices));
    assert!(!is_stale_device_widget(&"device-+10".to_string(), &devices));
    assert!(!is_stale_device_widget(&"device-0010".to_string(), &devices));
    assert!(is_stale_device_widget(&"device-4".to_string(), &devices));
    assert!(is_stale_device_widget(&"placeholder".to_string(), &devices));
    assert!(!is_stale_device_widget(&"placeholder".to_string(), &Vec::new()));
    assert!(!is_stale_device_widget(&"device-x".to_string(), &devices));
    assert!(!is_stale_device_widget(&"device-".to_string(), &devices));
    assert!(!is_stale_device_widget(&"device-4294967296".to_string(), &Vec::new()));
    assert!(is_stale_device_widget(&"device-4294967295".to_string(), &Vec::new()));
    assert!(!is_stale_device_widget(&"device--1".to_string(), &Vec::new()));
    assert!(!is_stale_device_widget(&"label".to_string(), &devices));
}

#[test]
fn device_list_follows_devices() {
    let devices = vec![device(3, false), device(5, true)];
    let plan = plan_device_list(&names(&["placeholder", "device-3", "device-9", "device-x"]), &devices);
    assert_eq!(plan.remove, vec![0, 2]);
    assert!(!plan.add_placeholder);
    assert_eq!(plan.steps.len(), 2);
    assert!(matches!(plan.steps[0], EntryStep::Update(0)));
    assert!(matches!(&plan.steps[1], EntryStep::Create(n) if n == "device-5"));
}

#[test]
fn repeated_device_index_reuses_the_new_entry() {
    let devices = vec![device(8, false), device(8, true)];
    let plan = plan_device_list(&Vec::new(), &devices);
    assert!(plan.remove.is_empty());
    assert!(matches!(&plan.steps[0], EntryStep::Create(n) if n == "device-8"));
    assert!(matches!(plan.steps[1], EntryStep::Update(0)));
}

#[test]
fn empty_device_list_gets_placeholder() {
    let plan = plan_device_list(&names(&["device-1", "device-2"]), &Vec::new());
    assert_eq!(plan.remove, vec![0, 1]);
    assert!(plan.add_placeholder);
    assert!(plan.steps.is_empty());
    let plan = plan_device_list(&names(&["placeholder"]), &Vec::new());
    assert!(plan.remove.is_empty());
    assert!(!plan.add_placeholder);
    let plan = plan_device_list(&names(&["device-x", "placeholder"]), &Vec::new());
    assert!(plan.add_placeholder);
}

#[test]
fn device_list_texts() {
    assert_eq!(empty_device_list_text(true), "No playback devices found");
    assert_eq!(empty_device_list_text(false), "No input devices found");
    assert_eq!(device_icon(true), "\u{f057f}");
    assert_eq!(device_icon(false), "\u{f130}");
    assert_eq!(device_entry_classes(true), vec!["device-item".to_string(), "default".to_string()]);
    assert_eq!(device_entry_classes(false), vec!["device-item".to_string()]);
}
