//! Media players in the "Now Playing" section: which players are shown,
//! which one is selected, what a player's card shows, and the commands its
//! buttons send.
use vstd::prelude::*;
use crate::icons::{app_icon, icon_for_lowercase, lowercase};
use crate::widgets::{first_position, lemma_first_position_found, names_view, position_of};

verus! {

/// What a media player reports about its playback.
#[derive(PartialEq, Eq, Structural, Clone, Copy, Debug)]
pub enum PlaybackState {
    Playing,
    Paused,
    Stopped,
}

/// A media player shown in the popup.
pub struct MediaPlayerInfo {
    pub bus_name: String,
    pub identity: String,
    pub title: Option<String>,
    pub artist: Option<String>,
    pub is_playing: bool,
}

/// The optional text as a sequence of characters.
pub open spec fn opt_view(o: Option<String>) -> Option<Seq<char>> {
    match o {
        Some(s) => Some(s@),
        None => None,
    }
}

/// The first artist of a track's artist list, if there is one.
pub open spec fn first_artist(artists: Option<Seq<String>>) -> Option<Seq<char>> {
    match artists {
        Some(a) => if a.len() > 0 {
            Some(a[0]@)
        } else {
            None
        },
        None => None,
    }
}

/// Whether a player in the playback state `status` is shown: not while it
/// is stopped or its state cannot be read.
pub fn player_is_shown(status: Option<PlaybackState>) -> (r: bool)
    ensures
        r == !(status is None || status == Some(PlaybackState::Stopped)),
{
    match status {
        Some(PlaybackState::Playing) => true,
        Some(PlaybackState::Paused) => true,
        _ => false,
    }
}

/// The player to show for a player on the bus: none while it is stopped or
/// its state cannot be read, otherwise its names, the track's title and
/// first artist, and whether it plays.
pub fn player_info(
    bus_name: String,
    identity: String,
    status: Option<PlaybackState>,
    title: Option<String>,
    artists: Option<Vec<String>>,
) -> (r: Option<MediaPlayerInfo>)
    ensures
        (status is None || status == Some(PlaybackState::Stopped)) <==> r is None,
        r matches Some(p) ==> {
            &&& p.bus_name@ == bus_name@
            &&& p.identity@ == identity@
            &&& opt_view(p.title) == opt_view(title)
            &&& opt_view(p.artist) == first_artist(
                match artists {
                    Some(a) => Some(a@),
                    None => None,
                },
            )
            &&& p.is_playing == (status == Some(PlaybackState::Playing))
        },
{
    let state = match status {
        Some(s) => s,
        None => PlaybackState::Stopped,
    };
    match state {
        PlaybackState::Stopped => None,
        _ => {
            let artist = match artists {
                Some(a) => if a.len() > 0 {
                    Some(a[0].clone())
                } else {
                    None
                },
                None => None,
            };
            let is_playing = match state {
                PlaybackState::Playing => true,
                _ => false,
            };
            Some(MediaPlayerInfo { bus_name, identity, title, artist, is_playing })
        },
    }
}

/// The bus names of the players.
pub open spec fn bus_names(players: Seq<MediaPlayerInfo>) -> Seq<Seq<char>> {
    players.map_values(|p: MediaPlayerInfo| p.bus_name@)
}

/// The position of the first of `names` equal to `bus_name`: the player
/// that a command for `bus_name` goes to.
pub fn find_player(names: &Vec<String>, bus_name: &str) -> (r: Option<usize>)
    ensures
        first_position(names_view(names@), bus_name@) == (match r {
            Some(p) => Some(p as int),
            None => None::<int>,
        }),
        r matches Some(p) ==> p < names@.len() && names@[p as int]@ == bus_name@,
        r matches Some(p) ==> forall|q: int| 0 <= q < p ==> names@[q]@ != bus_name@,
        r is None ==> forall|q: int| 0 <= q < names@.len() ==> names@[q]@ != bus_name@,
{
    let target = bus_name.to_owned();
    let r = position_of(names, &target);
    proof {
        lemma_first_position_found(names_view(names@), bus_name@);
        if r is None {
            assert forall|q: int| 0 <= q < names@.len() implies names@[q]@ != bus_name@ by {
                if names@[q]@ == bus_name@ {
                    assert(names_view(names@)[q] == bus_name@);
                }
            }
        } else {
            let p = r->0;
            assert forall|q: int| 0 <= q < p implies names@[q]@ != bus_name@ by {
                assert(names_view(names@)[q] == names@[q]@);
            }
        }
    }
    r
}

/// What the "Now Playing" section shows.
pub struct MediaView {
    /// Whether the section, its title and its separator are visible.
    pub visible: bool,
    /// The player whose card is shown.
    pub selected: Option<usize>,
    /// Whether the row of dots to switch between players is shown.
    pub show_dots: bool,
}

/// The bus names of `players`, in order.
fn bus_names_of(players: &Vec<MediaPlayerInfo>) -> (r: Vec<String>)
    ensures
        names_view(r@) == bus_names(players@),
{
    let mut names: Vec<String> = Vec::new();
    let mut i: usize = 0;
    while i < players.len()
        invariant
            i <= players@.len(),
            names@.len() == i,
            names_view(names@) == bus_names(players@).take(i as int),
        decreases players@.len() - i,
    {
        let ghost before = names@;
        names.push(players[i].bus_name.clone());
        assert forall|k: int| 0 <= k < i implies names@[k]@ == bus_names(players@)[k] by {
            assert(names@[k] == before[k]);
            assert(names_view(before)[k] == bus_names(players@).take(i as int)[k]);
        }
        i = i + 1;
        assert(names_view(names@) =~= bus_names(players@).take(i as int));
    }
    assert(bus_names(players@).take(i as int) =~= bus_names(players@));
    names
}

/// The position of the player to show when the player last shown had the
/// bus name `saved`: the first player with that bus name, or else the first.
pub open spec fn selected_position(players: Seq<MediaPlayerInfo>, saved: Option<String>) -> int {
    match saved {
        Some(b) => match first_position(bus_names(players), b@) {
            Some(p) => p,
            None => 0,
        },
        None => 0,
    }
}

/// What the "Now Playing" section shows for `players`, when the player
/// last shown had the bus name `saved`: the section shows while there are
/// players; the card shown is that of the first player with the saved bus
/// name, or else the first player's; the dots show when there is more than
/// one player.
pub fn plan_media_view(players: &Vec<MediaPlayerInfo>, saved: &Option<String>) -> (r: MediaView)
    ensures
        r.visible == (players@.len() > 0),
        r.show_dots == (players@.len() > 1),
        players@.len() == 0 ==> r.selected is None,
        players@.len() > 0 ==> (r.selected matches Some(i) && i as int == selected_position(
            players@,
            *saved,
        )),
        r.selected matches Some(i) ==> i < players@.len(),
        (saved matches Some(b) && bus_names(players@).contains(b@)) ==> (r.selected matches Some(
            i,
        ) && players@[i as int].bus_name@ == saved->0@),
        saved matches Some(b) ==> (r.selected matches Some(i) ==> (players@[i as int].bus_name@
            == b@ ==> forall|q: int| 0 <= q < i ==> players@[q].bus_name@ != b@)),
        (saved matches Some(b) && !bus_names(players@).contains(b@)) ==> (players@.len() > 0
            ==> r.selected == Some(0usize)),
        saved is None ==> (players@.len() > 0 ==> r.selected == Some(0usize)),
{
    proof {
        if let Some(b) = saved {
            lemma_first_position_found(bus_names(players@), b@);
            assert forall|q: int| 0 <= q < players@.len() implies bus_names(players@)[q]
                == players@[q].bus_name@ by {}
            if players@.len() > 0 && !bus_names(players@).contains(b@) {
                assert(bus_names(players@)[0] != b@);
            }
        }
    }
    if players.len() == 0 {
        return MediaView { visible: false, selected: None, show_dots: false };
    }
    let idx = match saved {
        Some(b) => match position_of(&bus_names_of(players), b) {
            Some(p) => p,
            None => 0,
        },
        None => 0,
    };
    proof {
        if let Some(b) = saved {
            if players@[idx as int].bus_name@ == b@ {
                assert forall|q: int| 0 <= q < idx implies players@[q].bus_name@ != b@ by {
                    assert(bus_names(players@)[q] == players@[q].bus_name@);
                }
            }
        }
    }
    MediaView { visible: true, selected: Some(idx), show_dots: players.len() > 1 }
}

/// What a player's card shows.
pub struct PlayerCard {
    pub icon: &'static str,
    pub name: String,
    pub title: String,
    pub artist: String,
    pub artist_visible: bool,
    /// The glyph of the play/pause button: pause while playing, play otherwise.
    pub play_glyph: &'static str,
}

/// What the card of `player` shows: the glyph for its identity, its
/// identity, the track title or "Unknown track", the artist (hidden when
/// unknown), and the play/pause glyph.
pub fn player_card(player: &MediaPlayerInfo) -> (r: PlayerCard)
    ensures
        r.icon@ == icon_for_lowercase(lowercase(player.identity@)),
        r.name@ == player.identity@,
        r.title@ == (match player.title {
            Some(t) => t@,
            None => "Unknown track"@,
        }),
        r.artist@ == (match player.artist {
            Some(a) => a@,
            None => ""@,
        }),
        r.artist_visible == player.artist is Some,
        r.play_glyph@ == (if player.is_playing {
            "\u{f04c}"@
        } else {
            "\u{f04b}"@
        }),
{
    let title = match &player.title {
        Some(t) => t.clone(),
        None => "Unknown track".to_owned(),
    };
    let artist = match &player.artist {
        Some(a) => a.clone(),
        None => "".to_owned(),
    };
    let play_glyph = if player.is_playing {
        "\u{f04c}"
    } else {
        "\u{f04b}"
    };
    PlayerCard {
        icon: app_icon(player.identity.as_str()),
        name: player.identity.clone(),
        title,
        artist,
        artist_visible: player.artist.is_some(),
        play_glyph,
    }
}

/// A command of a player's control buttons.
#[derive(PartialEq, Eq, Structural, Clone, Copy, Debug)]
pub enum PlayerAction {
    PlayPause,
    Next,
    Previous,
}

/// A command for the player on the bus `bus_name`.
pub struct PlayerCommand {
    pub bus_name: String,
    pub action: PlayerAction,
}

/// The command that toggles play and pause of the player `bus_name`.
pub fn play_pause(bus_name: &str) -> (r: PlayerCommand)
    ensures
        r.bus_name@ == bus_name@,
        r.action == PlayerAction::PlayPause,
{
    PlayerCommand { bus_name: bus_name.to_owned(), action: PlayerAction::PlayPause }
}

/// The command that skips the player `bus_name` to the next track.
pub fn next_track(bus_name: &str) -> (r: PlayerCommand)
    ensures
        r.bus_name@ == bus_name@,
        r.action == PlayerAction::Next,
{
    PlayerCommand { bus_name: bus_name.to_owned(), action: PlayerAction::Next }
}

/// The command that takes the player `bus_name` back to the previous track.
pub fn prev_track(bus_name: &str) -> (r: PlayerCommand)
    ensures
        r.bus_name@ == bus_name@,
        r.action == PlayerAction::Previous,
{
    PlayerCommand { bus_name: bus_name.to_owned(), action: PlayerAction::Previous }
}

} // verus!
