use audio_control::media::player_is_shown;
use audio_control::icons::{app_icon, icon_for_lowercase_name};
use audio_control::media::{
    find_player, next_track, play_pause, plan_media_view, player_card, player_info, prev_track,
    MediaPlayerInfo, PlaybackState, PlayerAction,
};

fn player(bus: &str, playing: bool) -> MediaPlayerInfo {
    MediaPlayerInfo {
        bus_name: bus.to_string(),
        identity: "Spotify".to_string(),
        title: None,
        artist: None,
        is_playing: playing,
    }
}

#[test]
fn app_icons() {
    assert_eq!(app_icon("Firefox"), "\u{f269}");
    assert_eq!(app_icon("Google CHROME"), "\u{f268}");
    assert_eq!(app_icon("Chromium"), "\u{f268}");
    assert_eq!(app_icon("spotify"), "\u{f1bc}");
    assert_eq!(app_icon("VLC media player"), "\u{f04b}");
    assert_eq!(app_icon("mpv"), "\u{f04b}");
    assert_eq!(app_icon("Discord"), "\u{f392}");
    assert_eq!(app_icon("Steam"), "\u{f1b6}");
    assert_eq!(app_icon("Telegram Desktop"), "\u{f2c6}");
    assert_eq!(app_icon("ZOOM"), "\u{f0c0}");
    assert_eq!(app_icon("Brave"), "\u{f268}");
    assert_eq!(app_icon("OBS Studio"), "\u{f03d}");
    assert_eq!(app_icon("PulseAudio Volume Control"), "\u{f028}");
    assert_eq!(app_icon("Audio Recorder"), "\u{f028}");
    assert_eq!(app_icon("Audacity"), "\u{f001}");
    assert_eq!(app_icon("Unknown"), "\u{f001}");
    assert_eq!(app_icon(""), "\u{f001}");
}

#[test]
fn icon_choice_goes_by_first_match() {
    assert_eq!(icon_for_lowercase_name("firefox audio"), "\u{f269}");
    assert_eq!(icon_for_lowercase_name("Firefox"), "\u{f001}");
}

#[test]
fn stopped_players_are_not_shown() {
    let r = player_info("a".to_string(), "A".to_string(), Some(PlaybackState::Stopped), None, None);
    assert!(r.is_none());
    let r = player_info("a".to_string(), "A".to_string(), None, None, None);
    assert!(r.is_none());
}

#[test]
fn playing_and_paused_players_are_shown() {
    let r = player_info(
        "org.mpris.MediaPlayer2.spotify".to_string(),
        "Spotify".to_string(),
        Some(PlaybackState::Playing),
        Some("Song".to_string()),
        Some(vec!["First".to_string(), "Second".to_string()]),
    )
    .unwrap();
    assert_eq!(r.bus_name, "org.mpris.MediaPlayer2.spotify");
    assert_eq!(r.identity, "Spotify");
    assert_eq!(r.title, Some("Song".to_string()));
    assert_eq!(r.artist, Some("First".to_string()));
    assert!(r.is_playing);
    let r = player_info("b".to_string(), "B".to_string(), Some(PlaybackState::Paused), None, Some(vec![]))
        .unwrap();
    assert_eq!(r.artist, None);
    assert!(!r.is_playing);
}

#[test]
fn media_view_selection() {
    let players = vec![player("a", true), player("b", false), player("b", true)];
    let v = plan_media_view(&players, &Some("b".to_string()));
    assert!(v.visible);
    assert!(v.show_dots);
    assert_eq!(v.selected, Some(1));
    let v = plan_media_view(&players, &Some("gone".to_string()));
    assert_eq!(v.selected, Some(0));
    let v = plan_media_view(&players, &None);
    assert_eq!(v.selected, Some(0));
    let v = plan_media_view(&vec![player("a", true)], &None);
    assert!(!v.show_dots);
    let v = plan_media_view(&Vec::new(), &Some("a".to_string()));
    assert!(!v.visible);
    assert_eq!(v.selected, None);
}

#[test]
fn player_cards() {
    let mut p = player("a", true);
    let card = player_card(&p);
    assert_eq!(card.icon, "\u{f1bc}");
    assert_eq!(card.name, "Spotify");
    assert_eq!(card.title, "Unknown track");
    assert_eq!(card.artist, "");
    assert!(!card.artist_visible);
    assert_eq!(card.play_glyph, "\u{f04c}");
    p.title = Some("T".to_string());
    p.artist = Some("R".to_string());
    p.is_playing = false;
    let card = player_card(&p);
    assert_eq!(card.title, "T");
    assert_eq!(card.artist, "R");
    assert!(card.artist_visible);
    assert_eq!(card.play_glyph, "\u{f04b}");
}

#[test]
fn player_commands() {
    let c = play_pause("bus.x");
    assert_eq!(c.bus_name, "bus.x");
    assert_eq!(c.action, PlayerAction::PlayPause);
    assert_eq!(next_track("bus.y").action, PlayerAction::Next);
    assert_eq!(next_track("bus.y").bus_name, "bus.y");
    assert_eq!(prev_track("bus.z").action, PlayerAction::Previous);
}

#[test]
fn commands_go_to_first_player_with_the_bus_name() {
    let names = vec!["a".to_string(), "b".to_string(), "b".to_string()];
    assert_eq!(find_player(&names, "b"), Some(1));
    assert_eq!(find_player(&names, "c"), None);
    assert_eq!(find_player(&Vec::new(), "a"), None);
}

#[test]
fn only_playing_or_paused_players_are_shown() {
    assert!(player_is_shown(Some(PlaybackState::Playing)));
    assert!(player_is_shown(Some(PlaybackState::Paused)));
    assert!(!player_is_shown(Some(PlaybackState::Stopped)));
    assert!(!player_is_shown(None));
}
