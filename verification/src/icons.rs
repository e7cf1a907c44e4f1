//! The Nerd Font glyph shown beside an application's name.
use vstd::prelude::*;
use crate::text::{chars_of, contains_chars, contains_seq};

verus! {

/// What `str::to_lowercase` gives for `s`: its Unicode lowercase mapping
/// (character by character, except that a word-final capital sigma becomes
/// a final sigma).
pub uninterp spec fn lowercase(s: Seq<char>) -> Seq<char>;

/// Calls `str::to_lowercase`. Its result is named by `lowercase` of the
/// argument's characters; the Unicode lowercase mapping itself is not stated.
#[verifier::external_body]
fn to_lowercase(s: &str) -> (r: String)
    ensures
        r@ == lowercase(s@),
{
    s.to_lowercase()
}

/// The glyph for an application whose lowercased name is `lower`: the first
/// known application whose name occurs in it decides, a music note stands
/// for any other.
pub open spec fn icon_for_lowercase(lower: Seq<char>) -> Seq<char> {
    if contains_seq(lower, "firefox"@) {
        "\u{f269}"@
    } else if contains_seq(lower, "chrome"@) || contains_seq(lower, "chromium"@) {
        "\u{f268}"@
    } else if contains_seq(lower, "spotify"@) {
        "\u{f1bc}"@
    } else if contains_seq(lower, "vlc"@) {
        "\u{f04b}"@
    } else if contains_seq(lower, "mpv"@) {
        "\u{f04b}"@
    } else if contains_seq(lower, "discord"@) {
        "\u{f392}"@
    } else if contains_seq(lower, "steam"@) {
        "\u{f1b6}"@
    } else if contains_seq(lower, "telegram"@) {
        "\u{f2c6}"@
    } else if contains_seq(lower, "zoom"@) {
        "\u{f0c0}"@
    } else if contains_seq(lower, "brave"@) {
        "\u{f268}"@
    } else if contains_seq(lower, "obs"@) {
        "\u{f03d}"@
    } else if contains_seq(lower, "pulse"@) || contains_seq(lower, "audio"@) {
        "\u{f028}"@
    } else {
        "\u{f001}"@
    }
}

/// Whether `lower` contains `pat`.
fn has(lower: &Vec<char>, pat: &str) -> (r: bool)
    ensures
        r == contains_seq(lower@, pat@),
{
    contains_chars(lower, &chars_of(pat))
}

/// The glyph for an application whose lowercased name is `lower`.
pub fn icon_for_lowercase_name(lower: &str) -> (r: &'static str)
    ensures
        r@ == icon_for_lowercase(lower@),
{
    let c = chars_of(lower);
    if has(&c, "firefox") {
        "\u{f269}"
    } else if has(&c, "chrome") || has(&c, "chromium") {
        "\u{f268}"
    } else if has(&c, "spotify") {
        "\u{f1bc}"
    } else if has(&c, "vlc") {
        "\u{f04b}"
    } else if has(&c, "mpv") {
        "\u{f04b}"
    } else if has(&c, "discord") {
        "\u{f392}"
    } else if has(&c, "steam") {
        "\u{f1b6}"
    } else if has(&c, "telegram") {
        "\u{f2c6}"
    } else if has(&c, "zoom") {
        "\u{f0c0}"
    } else if has(&c, "brave") {
        "\u{f268}"
    } else if has(&c, "obs") {
        "\u{f03d}"
    } else if has(&c, "pulse") || has(&c, "audio") {
        "\u{f028}"
    } else {
        "\u{f001}"
    }
}

/// The glyph shown beside the application `app_name`, chosen on its
/// lowercased name.
pub fn app_icon(app_name: &str) -> (r: &'static str)
    ensures
        r@ == icon_for_lowercase(lowercase(app_name@)),
{
    let lower = to_lowercase(app_name);
    icon_for_lowercase_name(lower.as_str())
}

} // verus!

verus! {

/// Every application gets one of the known glyphs.
pub proof fn law_icon_is_known_glyph(lower: Seq<char>)
    ensures
        ({
            let g = icon_for_lowercase(lower);
            ||| g == "\u{f269}"@
            ||| g == "\u{f268}"@
            ||| g == "\u{f1bc}"@
            ||| g == "\u{f04b}"@
            ||| g == "\u{f392}"@
            ||| g == "\u{f1b6}"@
            ||| g == "\u{f2c6}"@
            ||| g == "\u{f0c0}"@
            ||| g == "\u{f03d}"@
            ||| g == "\u{f028}"@
            ||| g == "\u{f001}"@
        }),
{
}

} // verus!

verus! {

/// Which glyph a lowercased application name gets, keyword by keyword: the
/// first keyword, in this order, that occurs anywhere in the name decides
/// (so any name containing "obs" and none of the earlier keywords gets the
/// camera glyph); a name with none of them gets the music note.
pub proof fn law_icon_keywords(lower: Seq<char>)
    ensures
        ((contains_seq(lower, "firefox"@))) ==> icon_for_lowercase(lower) == "\u{f269}"@,
        (!contains_seq(lower, "firefox"@) && (contains_seq(lower, "chrome"@) || contains_seq(lower, "chromium"@))) ==> icon_for_lowercase(lower) == "\u{f268}"@,
        (!contains_seq(lower, "firefox"@) && !contains_seq(lower, "chrome"@) && !contains_seq(lower, "chromium"@) && (contains_seq(lower, "spotify"@))) ==> icon_for_lowercase(lower) == "\u{f1bc}"@,
        (!contains_seq(lower, "firefox"@) && !contains_seq(lower, "chrome"@) && !contains_seq(lower, "chromium"@) && !contains_seq(lower, "spotify"@) && (contains_seq(lower, "vlc"@))) ==> icon_for_lowercase(lower) == "\u{f04b}"@,
        (!contains_seq(lower, "firefox"@) && !contains_seq(lower, "chrome"@) && !contains_seq(lower, "chromium"@) && !contains_seq(lower, "spotify"@) && !contains_seq(lower, "vlc"@) && (contains_seq(lower, "mpv"@))) ==> icon_for_lowercase(lower) == "\u{f04b}"@,
        (!contains_seq(lower, "firefox"@) && !contains_seq(lower, "chrome"@) && !contains_seq(lower, "chromium"@) && !contains_seq(lower, "spotify"@) && !contains_seq(lower, "vlc"@) && !contains_seq(lower, "mpv"@) && (contains_seq(lower, "discord"@))) ==> icon_for_lowercase(lower) == "\u{f392}"@,
        (!contains_seq(lower, "firefox"@) && !contains_seq(lower, "chrome"@) && !contains_seq(lower, "chromium"@) && !contains_seq(lower, "spotify"@) && !contains_seq(lower, "vlc"@) && !contains_seq(lower, "mpv"@) && !contains_seq(lower, "discord"@) && (contains_seq(lower, "steam"@))) ==> icon_for_lowercase(lower) == "\u{f1b6}"@,
        (!contains_seq(lower, "firefox"@) && !contains_seq(lower, "chrome"@) && !contains_seq(lower, "chromium"@) && !contains_seq(lower, "spotify"@) && !contains_seq(lower, "vlc"@) && !contains_seq(lower, "mpv"@) && !contains_seq(lower, "discord"@) && !contains_seq(lower, "steam"@) && (contains_seq(lower, "telegram"@))) ==> icon_for_lowercase(lower) == "\u{f2c6}"@,
        (!contains_seq(lower, "firefox"@) && !contains_seq(lower, "chrome"@) && !contains_seq(lower, "chromium"@) && !contains_seq(lower, "spotify"@) && !contains_seq(lower, "vlc"@) && !contains_seq(lower, "mpv"@) && !contains_seq(lower, "discord"@) && !contains_seq(lower, "steam"@) && !contains_seq(lower, "telegram"@) && (contains_seq(lower, "zoom"@))) ==> icon_for_lowercase(lower) == "\u{f0c0}"@,
        (!contains_seq(lower, "firefox"@) && !contains_seq(lower, "chrome"@) && !contains_seq(lower, "chromium"@) && !contains_seq(lower, "spotify"@) && !contains_seq(lower, "vlc"@) && !contains_seq(lower, "mpv"@) && !contains_seq(lower, "discord"@) && !contains_seq(lower, "steam"@) && !contains_seq(lower, "telegram"@) && !contains_seq(lower, "zoom"@) && (contains_seq(lower, "brave"@))) ==> icon_for_lowercase(lower) == "\u{f268}"@,
        (!contains_seq(lower, "firefox"@) && !contains_seq(lower, "chrome"@) && !contains_seq(lower, "chromium"@) && !contains_seq(lower, "spotify"@) && !contains_seq(lower, "vlc"@) && !contains_seq(lower, "mpv"@) && !contains_seq(lower, "discord"@) && !contains_seq(lower, "steam"@) && !contains_seq(lower, "telegram"@) && !contains_seq(lower, "zoom"@) && !contains_seq(lower, "brave"@) && (contains_seq(lower, "obs"@))) ==> icon_for_lowercase(lower) == "\u{f03d}"@,
        (!contains_seq(lower, "firefox"@) && !contains_seq(lower, "chrome"@) && !contains_seq(lower, "chromium"@) && !contains_seq(lower, "spotify"@) && !contains_seq(lower, "vlc"@) && !contains_seq(lower, "mpv"@) && !contains_seq(lower, "discord"@) && !contains_seq(lower, "steam"@) && !contains_seq(lower, "telegram"@) && !contains_seq(lower, "zoom"@) && !contains_seq(lower, "brave"@) && !contains_seq(lower, "obs"@) && (contains_seq(lower, "pulse"@) || contains_seq(lower, "audio"@))) ==> icon_for_lowercase(lower) == "\u{f028}"@,
        (!contains_seq(lower, "firefox"@) && !contains_seq(lower, "chrome"@) && !contains_seq(lower, "chromium"@) && !contains_seq(lower, "spotify"@) && !contains_seq(lower, "vlc"@) && !contains_seq(lower, "mpv"@) && !contains_seq(lower, "discord"@) && !contains_seq(lower, "steam"@) && !contains_seq(lower, "telegram"@) && !contains_seq(lower, "zoom"@) && !contains_seq(lower, "brave"@) && !contains_seq(lower, "obs"@) && !contains_seq(lower, "pulse"@) && !contains_seq(lower, "audio"@)) ==> icon_for_lowercase(lower) == "\u{f001}"@,
{
}

} // verus!
