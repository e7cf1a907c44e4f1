use audio_control::audio::{AudioDevice, AudioStream};
use audio_control::devices::{device_widget_name_of, is_stale_device_widget, plan_device_list};
use audio_control::mixer::plan_stream_list;
use audio_control::widgets::EntryStep;

fn device(index: u32) -> AudioDevice {
    AudioDevice { index, name: format!("d{}", index), description: String::new(), is_default: false }
}

fn stream(index: u32, app: &str) -> AudioStream {
    AudioStream { index, name: String::new(), volume: 50, app_name: app.to_string() }
}

fn names(v: &[&str]) -> Vec<String> {
    v.iter().map(|s| s.to_string()).collect()
}

fn apply(children: &[String], remove: &[usize], steps: &[EntryStep]) -> Vec<String> {
    let mut shown: Vec<String> = children
        .iter()
        .enumerate()
        .filter(|(p, _)| !remove.contains(p))
        .map(|(_, n)| n.clone())
        .collect();
    for step in steps {
        match step {
            EntryStep::Update(p) => assert!(*p < shown.len()),
            EntryStep::Create(n) => {
                assert!(!shown.contains(n));
                shown.push(n.clone());
            }
        }
    }
    shown
}

#[test]
fn written_device_index_reads_back() {
    for n in [0u32, 1, 9, 10, 99, 100, 65535, 4294967295] {
        let name = device_widget_name_of(n);
        assert!(!is_stale_device_widget(&name, &vec![device(n)]));
        assert!(is_stale_device_widget(&name, &Vec::new()));
    }
}

#[test]
fn device_list_after_update_matches_devices() {
    let children = names(&["placeholder", "device-1", "device-7", "label", "device-07"]);
    let devices = vec![device(7), device(2)];
    let plan = plan_device_list(&children, &devices);
    let mut after = apply(&children, &plan.remove, &plan.steps);
    if plan.add_placeholder {
        after.push("placeholder".to_string());
    }
    for d in &devices {
        assert!(after.contains(&device_widget_name_of(d.index)));
    }
    assert!(!after.contains(&"placeholder".to_string()));
    assert!(!after.contains(&"device-1".to_string()));
    assert_eq!(after, names(&["device-7", "label", "device-07", "device-2"]));
}

#[test]
fn stream_list_after_update_matches_streams() {
    let children = names(&["stream-app-gone", "placeholder", "stream-app-mpv"]);
    let streams = vec![stream(1, "mpv"), stream(2, "zoom"), stream(3, "mpv")];
    let plan = plan_stream_list(&children, &streams);
    let mut shown = apply(&children, &plan.remove, &[]);
    if plan.drop_leading_placeholder {
        shown.remove(0);
    }
    let after = apply(&shown, &[], &plan.steps);
    assert_eq!(after, names(&["stream-app-mpv", "stream-app-zoom"]));
}

#[test]
fn existing_entries_are_updated_not_remade() {
    let children = names(&["device-4", "device-2"]);
    let devices = vec![device(2), device(4), device(6)];
    let plan = plan_device_list(&children, &devices);
    assert!(plan.remove.is_empty());
    assert!(matches!(plan.steps[0], EntryStep::Update(1)));
    assert!(matches!(plan.steps[1], EntryStep::Update(0)));
    assert!(matches!(&plan.steps[2], EntryStep::Create(n) if n == "device-6"));
    let children = names(&["placeholder", "stream-app-b", "stream-app-a"]);
    let streams = vec![stream(1, "a"), stream(2, "b")];
    let plan = plan_stream_list(&children, &streams);
    assert!(plan.remove.is_empty());
    assert!(plan.drop_leading_placeholder);
    assert!(matches!(plan.steps[0], EntryStep::Update(1)));
    assert!(matches!(plan.steps[1], EntryStep::Update(0)));
}

#[test]
fn repeated_updates_never_show_a_name_twice() {
    let mut shown: Vec<String> = Vec::new();
    for devices in [vec![device(1), device(2)], vec![], vec![device(2), device(3), device(2)], vec![device(3)]] {
        let plan = plan_device_list(&shown, &devices);
        let mut after = apply(&shown, &plan.remove, &plan.steps);
        if plan.add_placeholder {
            after.push("placeholder".to_string());
        }
        let mut sorted = after.clone();
        sorted.sort();
        sorted.dedup();
        assert_eq!(sorted.len(), after.len());
        shown = after;
    }
    let mut shown: Vec<String> = Vec::new();
    for streams in [vec![stream(1, "a"), stream(2, "b"), stream(3, "a")], vec![], vec![stream(4, "b")]] {
        let plan = plan_stream_list(&shown, &streams);
        let mut kept = apply(&shown, &plan.remove, &[]);
        if plan.show_placeholder_only {
            kept = vec!["placeholder".to_string()];
        }
        if plan.drop_leading_placeholder {
            kept.remove(0);
        }
        let after = apply(&kept, &[], &plan.steps);
        let mut sorted = after.clone();
        sorted.sort();
        sorted.dedup();
        assert_eq!(sorted.len(), after.len());
        shown = after;
    }
}
