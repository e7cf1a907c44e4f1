use audio_control::audio::AudioStream;
use audio_control::mixer::{group_streams, plan_stream_list, volume_label, StreamListPlan};
use audio_control::widgets::EntryStep;

fn stream(index: u32, volume: u32, app: &str) -> AudioStream {
    AudioStream { index, name: format!("stream {}", index), volume, app_name: app.to_string() }
}

fn names(v: &[&str]) -> Vec<String> {
    v.iter().map(|s| s.to_string()).collect()
}

#[test]
fn streams_of_one_app_share_one_group() {
    let streams = vec![stream(7, 40, "Firefox"), stream(3, 90, "Spotify"), stream(9, 61, "Firefox")];
    let groups = group_streams(&streams);
    assert_eq!(groups.len(), 2);
    assert_eq!(groups[0].app_name, "Firefox");
    assert_eq!(groups[0].indices, vec![7, 9]);
    assert_eq!(groups[0].volume, 50);
    assert_eq!(groups[1].app_name, "Spotify");
    assert_eq!(groups[1].indices, vec![3]);
    assert_eq!(groups[1].volume, 90);
}

#[test]
fn groups_are_ordered_by_name() {
    let streams = vec![stream(1, 10, "zoom"), stream(2, 20, "Zoom"), stream(3, 30, "apple"), stream(4, 40, "Zoo")];
    let groups = group_streams(&streams);
    let order: Vec<&str> = groups.iter().map(|g| g.app_name.as_str()).collect();
    assert_eq!(order, vec!["Zoo", "Zoom", "apple", "zoom"]);
}

#[test]
fn no_streams_no_groups() {
    assert!(group_streams(&Vec::new()).is_empty());
}

#[test]
fn group_volume_rounds_down() {
    let streams = vec![stream(1, 100, "vlc"), stream(2, 0, "vlc"), stream(3, 0, "vlc")];
    let groups = group_streams(&streams);
    assert_eq!(groups[0].volume, 33);
}

#[test]
fn group_volume_of_largest_values() {
    let streams = vec![stream(1, u32::MAX, "a"), stream(2, u32::MAX, "a")];
    assert_eq!(group_streams(&streams)[0].volume, u32::MAX);
}

#[test]
fn every_stream_is_in_exactly_one_group() {
    let streams = vec![stream(1, 5, "b"), stream(2, 5, "a"), stream(3, 5, "b"), stream(4, 5, "c"), stream(5, 5, "a")];
    let groups = group_streams(&streams);
    let total: usize = groups.iter().map(|g| g.indices.len()).sum();
    assert_eq!(total, streams.len());
    for s in &streams {
        let g = groups.iter().find(|g| g.app_name == s.app_name).unwrap();
        assert!(g.indices.contains(&s.index));
    }
}

#[test]
fn group_volume_lies_between_stream_volumes() {
    let streams = vec![stream(1, 12, "mpv"), stream(2, 80, "mpv"), stream(3, 33, "mpv")];
    let g = &group_streams(&streams)[0];
    assert!(g.volume >= 12 && g.volume <= 80);
    assert_eq!(g.volume, 41);
}

#[test]
fn volume_label_is_percent() {
    assert_eq!(volume_label(0), "0%");
    assert_eq!(volume_label(42), "42%");
    assert_eq!(volume_label(100), "100%");
}

#[test]
fn stream_list_without_streams_shows_placeholder_once() {
    let plan: StreamListPlan = plan_stream_list(&names(&["stream-app-Firefox", "label"]), &Vec::new());
    assert_eq!(plan.remove, vec![0]);
    assert!(plan.show_placeholder_only);
    assert!(plan.steps.is_empty());
    let plan = plan_stream_list(&names(&["label", "placeholder"]), &Vec::new());
    assert!(plan.remove.is_empty());
    assert!(!plan.show_placeholder_only);
}

#[test]
fn stream_list_updates_known_apps_and_adds_new_ones() {
    let streams = vec![stream(4, 20, "mpv"), stream(5, 60, "Firefox")];
    let plan = plan_stream_list(
        &names(&["placeholder", "stream-app-spotify", "stream-app-mpv"]),
        &streams,
    );
    assert_eq!(plan.remove, vec![1]);
    assert!(plan.drop_leading_placeholder);
    assert!(!plan.show_placeholder_only);
    assert_eq!(plan.groups.len(), 2);
    assert!(matches!(&plan.steps[0], EntryStep::Create(n) if n == "stream-app-Firefox"));
    assert!(matches!(plan.steps[1], EntryStep::Update(0)));
}
