//! Theme colours: finding a colour by name in a theme file, and the
//! defaults that stand in for colours that no file gives.
use vstd::prelude::*;
use crate::text::{
    all_char, all_space, chars_of, find_char, find_char_from, find_space, find_space_from,
    has_prefix, is_space, lemma_find_char_after, lemma_find_space_after, lemma_strip_end_run,
    lemma_strip_start_run, lemma_trim_end_spaces, lemma_trim_keeps, lemma_trim_start_spaces,
    range_equals, range_has_prefix, skip_char, skip_char_back, strip_char, strip_end_char,
    strip_start_char, trim, trim_end, trim_range, trim_start,
};

verus! {

/// The end of the line that starts at `p`: the position of the next `'\n'`,
/// or the end of `s`.
pub open spec fn line_end(s: Seq<char>, p: int) -> int
    decreases s.len() - p,
{
    if p >= s.len() {
        s.len() as int
    } else if s[p] == '\n' {
        p
    } else {
        line_end(s, p + 1)
    }
}

/// The text of the line from `p` to its end `e`; a `'\r'` just before a
/// `'\n'` belongs to the line ending, one at the very end of `s` does not.
pub open spec fn line_text(s: Seq<char>, p: int, e: int) -> Seq<char> {
    let raw = s.subrange(p, e);
    if e < s.len() && raw.len() > 0 && raw.last() == '\r' {
        raw.drop_last()
    } else {
        raw
    }
}

pub proof fn lemma_line_end_bounds(s: Seq<char>, p: int)
    requires
        0 <= p <= s.len(),
    ensures
        p <= line_end(s, p) <= s.len(),
    decreases s.len() - p,
{
    if p < s.len() && s[p] != '\n' {
        lemma_line_end_bounds(s, p + 1);
    }
}

/// The lines of `s` from position `p` on, as `str::lines` splits them.
pub open spec fn lines_from(s: Seq<char>, p: int) -> Seq<Seq<char>>
    decreases s.len() + 1 - p,
    via lines_from_decreases
{
    if p < 0 || p >= s.len() {
        Seq::empty()
    } else {
        let e = line_end(s, p);
        seq![line_text(s, p, e)] + lines_from(s, e + 1)
    }
}

#[via_fn]
proof fn lines_from_decreases(s: Seq<char>, p: int) {
    if !(p < 0 || p >= s.len()) {
        lemma_line_end_bounds(s, p);
    }
}

/// The lines of `s`, as `str::lines` gives them.
pub open spec fn lines(s: Seq<char>) -> Seq<Seq<char>> {
    lines_from(s, 0)
}

/// The value that a CSS line `@define-color <key> <value>;` gives `key`.
pub open spec fn define_color_value(line: Seq<char>, prefix: Seq<char>, key: Seq<char>) -> Option<
    Seq<char>,
> {
    if has_prefix(line, prefix) {
        let rest = strip_end_char(trim(line.skip(prefix.len() as int)), ';');
        match find_space_from(rest, 0) {
            Some(i) => if trim(rest.take(i)) == key {
                Some(trim(rest.skip(i + 1)))
            } else {
                None
            },
            None => None,
        }
    } else {
        None
    }
}

/// The value that a TOML line `<key> = "<value>"` gives `key`.
pub open spec fn assignment_value(line: Seq<char>, key: Seq<char>) -> Option<Seq<char>> {
    match find_char_from(line, '=', 0) {
        Some(i) => if trim(line.take(i)) == key {
            Some(strip_char(trim(line.skip(i + 1)), '"'))
        } else {
            None
        },
        None => None,
    }
}

/// The colour that one line gives `key`: the CSS form is tried first, then
/// the TOML form.
pub open spec fn line_color(line: Seq<char>, key: Seq<char>) -> Option<Seq<char>> {
    match define_color_value(line, "@define-color"@, key) {
        Some(v) => Some(v),
        None => assignment_value(line, key),
    }
}

/// The colour that the first line naming `key` gives it.
pub open spec fn color_in_lines(ls: Seq<Seq<char>>, key: Seq<char>) -> Option<Seq<char>>
    decreases ls.len(),
{
    if ls.len() == 0 {
        None
    } else {
        match line_color(ls[0], key) {
            Some(v) => Some(v),
            None => color_in_lines(ls.drop_first(), key),
        }
    }
}

/// The colour that a theme file's text gives `key`.
pub open spec fn theme_color(content: Seq<char>, key: Seq<char>) -> Option<Seq<char>> {
    color_in_lines(lines(content), key)
}

proof fn lemma_line_end_find(s: Seq<char>, p: int, j: int)
    requires
        0 <= p <= s.len(),
        0 <= j <= s.len() - p,
    ensures
        line_end(s, p + j) == (match find_char_from(s.subrange(p, s.len() as int), '\n', j) {
            Some(k) => p + k,
            None => s.len() as int,
        }),
    decreases s.len() - p - j,
{
    if p + j < s.len() {
        lemma_line_end_find(s, p, j + 1);
    }
}

/// The range of the value that the line `lo..hi` gives the key `k` in the
/// CSS form `@define-color <key> <value>;`.
fn define_color_range(c: &Vec<char>, lo: usize, hi: usize, k: &Vec<char>, prefix: &Vec<char>) -> (r:
    Option<(usize, usize)>)
    requires
        lo <= hi <= c@.len(),
    ensures
        define_color_value(c@.subrange(lo as int, hi as int), prefix@, k@) == (match r {
            Some(ab) => Some(c@.subrange(ab.0 as int, ab.1 as int)),
            None => None::<Seq<char>>,
        }),
        r matches Some(ab) ==> lo <= ab.0 <= ab.1 <= hi,
{
    let ghost line = c@.subrange(lo as int, hi as int);
    if !range_has_prefix(c, lo, hi, prefix) {
        return None;
    }
    let start = lo + prefix.len();
    assert(line.skip(prefix@.len() as int) =~= c@.subrange(start as int, hi as int));
    let (a, b) = trim_range(c, start, hi);
    let b2 = skip_char_back(c, a, b, ';');
    let ghost rest = c@.subrange(a as int, b2 as int);
    assert(rest == strip_end_char(trim(line.skip(prefix@.len() as int)), ';'));
    match find_space(c, a, b2) {
        Some(i) => {
            assert(rest.take(i - a) =~= c@.subrange(a as int, i as int));
            assert(rest.skip(i - a + 1) =~= c@.subrange(i + 1, b2 as int));
            let (ka, kb) = trim_range(c, a, i);
            if range_equals(c, ka, kb, k) {
                let (va, vb) = trim_range(c, i + 1, b2);
                Some((va, vb))
            } else {
                None
            }
        },
        None => None,
    }
}

/// The range of the value that the line `lo..hi` gives the key `k` in the
/// TOML form `<key> = "<value>"`.
fn assignment_range(c: &Vec<char>, lo: usize, hi: usize, k: &Vec<char>) -> (r: Option<
    (usize, usize),
>)
    requires
        lo <= hi <= c@.len(),
    ensures
        assignment_value(c@.subrange(lo as int, hi as int), k@) == (match r {
            Some(ab) => Some(c@.subrange(ab.0 as int, ab.1 as int)),
            None => None::<Seq<char>>,
        }),
        r matches Some(ab) ==> lo <= ab.0 <= ab.1 <= hi,
{
    let ghost line = c@.subrange(lo as int, hi as int);
    match find_char(c, lo, hi, '=') {
        Some(i) => {
            assert(line.take(i - lo) =~= c@.subrange(lo as int, i as int));
            assert(line.skip(i - lo + 1) =~= c@.subrange(i + 1, hi as int));
            let (ka, kb) = trim_range(c, lo, i);
            if range_equals(c, ka, kb, k) {
                let (va, vb) = trim_range(c, i + 1, hi);
                let va2 = skip_char(c, va, vb, '"');
                let vb2 = skip_char_back(c, va2, vb, '"');
                Some((va2, vb2))
            } else {
                None
            }
        },
        None => None,
    }
}

/// The range of the colour that the line `lo..hi` gives the key `k`.
fn line_color_range(c: &Vec<char>, lo: usize, hi: usize, k: &Vec<char>, prefix: &Vec<char>) -> (r:
    Option<(usize, usize)>)
    requires
        lo <= hi <= c@.len(),
        prefix@ == "@define-color"@,
    ensures
        line_color(c@.subrange(lo as int, hi as int), k@) == (match r {
            Some(ab) => Some(c@.subrange(ab.0 as int, ab.1 as int)),
            None => None::<Seq<char>>,
        }),
        r matches Some(ab) ==> lo <= ab.0 <= ab.1 <= hi,
{
    match define_color_range(c, lo, hi, k, prefix) {
        Some(ab) => Some(ab),
        None => assignment_range(c, lo, hi, k),
    }
}

/// The colour that the theme file text `content` gives `key`: the value of
/// the first line that is either `@define-color <key> <value>;` or
/// `<key> = "<value>"`, trimmed.
pub fn parse_color(content: &str, key: &str) -> (r: Option<String>)
    ensures
        r matches Some(v) ==> theme_color(content@, key@) == Some(v@),
        r is None ==> theme_color(content@, key@) is None,
{
    let c = chars_of(content);
    let k = chars_of(key);
    let prefix = chars_of("@define-color");
    let n = c.len();
    let mut p: usize = 0;
    while p < n
        invariant
            n == c@.len(),
            c@ == content@,
            k@ == key@,
            prefix@ == "@define-color"@,
            p <= n,
            theme_color(content@, key@) == color_in_lines(lines_from(c@, p as int), k@),
        decreases n - p,
    {
        proof {
            lemma_line_end_find(c@, p as int, 0);
            lemma_line_end_bounds(c@, p as int);
        }
        let e = match find_char(&c, p, n, '\n') {
            Some(e) => e,
            None => n,
        };
        assert(e == line_end(c@, p as int));
        let mut hi = e;
        if e < n && hi > p && c[hi - 1] == '\r' {
            hi = hi - 1;
            assert(c@.subrange(p as int, e as int).drop_last() =~= c@.subrange(
                p as int,
                hi as int,
            ));
        }
        assert(line_text(c@, p as int, e as int) == c@.subrange(p as int, hi as int));
        let ghost rest_lines = lines_from(c@, e + 1);
        assert(lines_from(c@, p as int).drop_first() =~= rest_lines);
        match line_color_range(&c, p, hi, &k, &prefix) {
            Some((a, b)) => {
                let v = content.substring_char(a, b).to_owned();
                return Some(v);
            },
            None => {},
        }
        if e >= n {
            assert(rest_lines.len() == 0);
            assert(color_in_lines(lines_from(c@, p as int), k@) == color_in_lines(rest_lines, k@));
            return None;
        }
        p = e + 1;
    }
    None
}

} // verus!

verus! {

/// The foreground colour used when no theme file gives one.
pub open spec fn default_foreground() -> Seq<char> {
    "#cdd6f4"@
}

/// The background colour used when no theme file gives one.
pub open spec fn default_background() -> Seq<char> {
    "#1e1e2e"@
}

/// The accent colour used when no theme file gives one.
pub open spec fn default_accent() -> Seq<char> {
    "#f5c2e7"@
}

/// The surface colour used when no theme file gives one: the foreground,
/// nearly transparent.
pub open spec fn default_surface() -> Seq<char> {
    "alpha(@_fg, 0.08)"@
}

/// The colours of the popup.
pub struct ThemeColors {
    pub foreground: String,
    pub background: String,
    pub accent: String,
    pub surface: String,
}

/// The colour that a file's text, if the file could be read, gives `key`.
pub open spec fn file_color(content: Option<Seq<char>>, key: Seq<char>) -> Option<Seq<char>> {
    match content {
        Some(c) => theme_color(c, key),
        None => None,
    }
}

/// `value`, or `default` when there is none.
pub open spec fn or_default(value: Option<Seq<char>>, default: Seq<char>) -> Seq<char> {
    match value {
        Some(v) => v,
        None => default,
    }
}

/// The colour that `content`, if there is one, gives `key`.
fn color_from(content: &Option<String>, key: &str) -> (r: Option<String>)
    ensures
        r matches Some(v) ==> file_color(
            match content {
                Some(c) => Some(c@),
                None => None,
            },
            key@,
        ) == Some(v@),
        r is None ==> file_color(
            match content {
                Some(c) => Some(c@),
                None => None,
            },
            key@,
        ) is None,
{
    match content {
        Some(c) => parse_color(c.as_str(), key),
        None => None,
    }
}

/// `value`, or the text `default` when there is none.
fn or_default_text(value: Option<String>, default: &str) -> (r: String)
    ensures
        r@ == or_default(
            match value {
                Some(v) => Some(v@),
                None => None,
            },
            default@,
        ),
{
    match value {
        Some(v) => v,
        None => default.to_owned(),
    }
}

/// The surface colour that the theme files give: the colour table's, or
/// else the waybar stylesheet's.
pub open spec fn theme_surface(waybar_css: Option<Seq<char>>, colors_toml: Option<Seq<char>>) -> Option<
    Seq<char>,
> {
    match file_color(colors_toml, "surface"@) {
        Some(v) => Some(v),
        None => file_color(waybar_css, "surface"@),
    }
}

/// The theme colours that the theme files give: foreground and background
/// from the waybar stylesheet's text, the accent from the colour table's
/// text, the surface from the colour table's or else the waybar
/// stylesheet's (`None` where a file could not be read), each with its
/// default.
pub fn theme_colors_from_files(waybar_css: &Option<String>, colors_toml: &Option<String>) -> (r:
    ThemeColors)
    ensures
        r.foreground@ == or_default(
            file_color(
                match waybar_css {
                    Some(c) => Some(c@),
                    None => None,
                },
                "foreground"@,
            ),
            default_foreground(),
        ),
        r.background@ == or_default(
            file_color(
                match waybar_css {
                    Some(c) => Some(c@),
                    None => None,
                },
                "background"@,
            ),
            default_background(),
        ),
        r.accent@ == or_default(
            file_color(
                match colors_toml {
                    Some(c) => Some(c@),
                    None => None,
                },
                "accent"@,
            ),
            default_accent(),
        ),
        r.surface@ == or_default(
            theme_surface(
                match waybar_css {
                    Some(c) => Some(c@),
                    None => None,
                },
                match colors_toml {
                    Some(c) => Some(c@),
                    None => None,
                },
            ),
            default_surface(),
        ),
        waybar_css is None ==> r.foreground@ == "#cdd6f4"@ && r.background@ == "#1e1e2e"@,
        colors_toml is None ==> r.accent@ == "#f5c2e7"@,
        waybar_css is None && colors_toml is None ==> r.surface@ == "alpha(@_fg, 0.08)"@,
{
    let foreground = or_default_text(color_from(waybar_css, "foreground"), "#cdd6f4");
    let background = or_default_text(color_from(waybar_css, "background"), "#1e1e2e");
    let accent = or_default_text(color_from(colors_toml, "accent"), "#f5c2e7");
    let surface_found = match color_from(colors_toml, "surface") {
        Some(v) => Some(v),
        None => color_from(waybar_css, "surface"),
    };
    let surface = or_default_text(surface_found, "alpha(@_fg, 0.08)");
    ThemeColors { foreground, background, accent, surface }
}

/// The directory of the current theme under the home directory `home`.
pub fn theme_dir(home: &str) -> (r: String)
    ensures
        r@ == home@ + "/.config/omarchy/current/theme"@,
{
    let mut s = home.to_owned();
    s.append("/.config/omarchy/current/theme");
    s
}

/// The path of the waybar stylesheet in the theme directory `dir`.
pub fn waybar_css_path(dir: &str) -> (r: String)
    ensures
        r@ == dir@ + "/waybar.css"@,
{
    let mut s = dir.to_owned();
    s.append("/waybar.css");
    s
}

/// The path of the colour table in the theme directory `dir`.
pub fn colors_toml_path(dir: &str) -> (r: String)
    ensures
        r@ == dir@ + "/colors.toml"@,
{
    let mut s = dir.to_owned();
    s.append("/colors.toml");
    s
}

/// The rules of the stylesheet that follow the theme colour definitions.
pub const STYLESHEET_RULES: &'static str = ";
@define-color _surface_hover alpha(@_fg, 0.14);
@define-color _surface_disabled alpha(@_fg, 0.04);
@define-color _subtext alpha(@_fg, 0.55);

window {
    background-color: @_bg;
    padding: 16px;
}

.app-label {
    color: @_fg;
    font-size: 14px;
    font-weight: 500;
    margin-bottom: 4px;
}

.volume-label {
    color: @_subtext;
    font-size: 12px;
    margin-bottom: 8px;
}

.stream-icon {
    font-size: 15px;
    margin-right: 8px;
    color: @_fg;
}

.stream-app-label {
    color: @_fg;
    font-size: 14px;
    font-weight: 500;
}

.stream-volume-label {
    color: @_subtext;
    font-size: 12px;
    min-width: 36px;
}

scale {
    min-width: 200px;
    min-height: 6px;
    margin: 4px 0;
    margin-left: 0;
    padding-left: 0;
}

scale slider {
    background-color: @_accent;
    border-radius: 50%;
    min-width: 16px;
    min-height: 16px;
    border: none;
    box-shadow: none;
}

scale trough {
    background-color: @_surface;
    border-radius: 6px;
    min-height: 6px;
    border: none;
}

scale highlight {
    background-color: @_fg;
    border-radius: 6px;
}

scale:disabled slider {
    background-color: @_subtext;
}

scale:disabled trough {
    background-color: @_surface_disabled;
}

scale:disabled highlight {
    background-color: @_subtext;
}

.section-title {
    color: @_accent;
    font-size: 13px;
    font-weight: 600;
    margin-top: 12px;
    margin-bottom: 8px;
}

.device-item {
    background-color: @_surface;
    color: @_fg;
    padding: 8px 12px;
    margin: 2px;
    transition: background-color 0.2s ease;
}

.device-item:hover {
    background-color: @_surface_hover;
}

.device-item.default {
    background-color: @_surface;
    color: @_fg;
    border: 1px solid @_fg;
}

.device-item.default:hover {
    background-color: @_surface_hover;
}

.device-icon {
    font-size: 16px;
    margin-right: 8px;
}

.device-label {
    font-size: 13px;
    font-weight: 500;
}

separator {
    background-color: @_surface;
    min-height: 1px;
    margin: 12px 0;
}

.container-box {
    padding: 8px;
}

window.backdrop-capture {
    background-color: rgba(0, 0, 0, 0.02);
    border-radius: 0;
    padding: 0;
}

.media-title {
    color: @_fg;
    font-size: 13px;
    font-weight: 500;
    margin-left: 23px;
}

.media-artist {
    color: @_subtext;
    font-size: 11px;
    margin-left: 23px;
    margin-bottom: 4px;
}

.media-btn {
    background: @_surface;
    color: @_fg;
    border: none;
    border-radius: 6px;
    padding: 4px 10px;
    min-width: 28px;
    margin-bottom: 8px;
}

.media-btn:hover {
    background: @_surface_hover;
}

.carousel-dot {
    background: alpha(@_fg, 0.25);
    border-radius: 50%;
    min-width: 0;
    min-height: 0;
    padding: 5px;
}

.carousel-dot.active {
    background: @_fg;
}
";

/// The stylesheet of the popup: the four theme colours defined as
/// `_fg`, `_bg`, `_accent` and `_surface`, then the rules that use them.
pub open spec fn stylesheet_text(colors: ThemeColors) -> Seq<char> {
    "\n@define-color _fg "@ + colors.foreground@ + ";\n@define-color _bg "@ + colors.background@
        + ";\n@define-color _accent "@ + colors.accent@ + ";\n@define-color _surface "@
        + colors.surface@ + STYLESHEET_RULES@
}

/// The stylesheet of the popup for the theme colours `colors`.
pub fn stylesheet(colors: &ThemeColors) -> (r: String)
    ensures
        r@ == stylesheet_text(*colors),
        r@ == "\n@define-color _fg "@ + colors.foreground@ + ";\n@define-color _bg "@
            + colors.background@ + ";\n@define-color _accent "@ + colors.accent@
            + ";\n@define-color _surface "@ + colors.surface@ + STYLESHEET_RULES@,
        r@.len() >= STYLESHEET_RULES@.len(),
        r@.skip(r@.len() - STYLESHEET_RULES@.len()) == STYLESHEET_RULES@,
{
    let mut s = "\n@define-color _fg ".to_owned();
    s.append(colors.foreground.as_str());
    s.append(";\n@define-color _bg ");
    s.append(colors.background.as_str());
    s.append(";\n@define-color _accent ");
    s.append(colors.accent.as_str());
    s.append(";\n@define-color _surface ");
    s.append(colors.surface.as_str());
    s.append(STYLESHEET_RULES);
    proof {
        law_stylesheet_keeps_every_rule(*colors);
    }
    s
}

} // verus!

verus! {

proof fn lemma_line_end_first(s: Seq<char>, n: int, p: int)
    requires
        0 <= p <= n <= s.len(),
        forall|i: int| 0 <= i < n ==> s[i] != '\n',
        n < s.len() ==> s[n] == '\n',
    ensures
        line_end(s, p) == n,
    decreases n - p,
{
    if p < n {
        lemma_line_end_first(s, n, p + 1);
    }
}

proof fn lemma_line_end_shift(pre: Seq<char>, b: Seq<char>, p: int)
    requires
        0 <= p <= b.len(),
    ensures
        line_end(pre + b, pre.len() + p) == pre.len() + line_end(b, p),
    decreases b.len() - p,
{
    let s = pre + b;
    if p < b.len() {
        assert(s[pre.len() + p] == b[p]);
        lemma_line_end_shift(pre, b, p + 1);
    }
}

proof fn lemma_lines_from_shift(pre: Seq<char>, b: Seq<char>, p: int)
    requires
        0 <= p,
    ensures
        lines_from(pre + b, pre.len() + p) == lines_from(b, p),
    decreases b.len() + 1 - p,
{
    let s = pre + b;
    let off = pre.len() as int;
    if p < b.len() {
        lemma_line_end_shift(pre, b, p);
        lemma_line_end_bounds(b, p);
        let e = line_end(b, p);
        assert(s.subrange(off + p, off + e) =~= b.subrange(p, e));
        assert(line_text(s, off + p, off + e) == line_text(b, p, e));
        lemma_lines_from_shift(pre, b, e + 1);
        assert(off + e + 1 == off + (e + 1));
    }
}

proof fn lemma_color_in_lines_cons(x: Seq<char>, rest: Seq<Seq<char>>, key: Seq<char>)
    ensures
        color_in_lines(seq![x] + rest, key) == (match line_color(x, key) {
            Some(v) => Some(v),
            None => color_in_lines(rest, key),
        }),
{
    assert((seq![x] + rest).drop_first() =~= rest);
    assert((seq![x] + rest)[0] == x);
}

/// A blank line names no colour.
pub proof fn law_blank_line_names_nothing(key: Seq<char>)
    ensures
        line_color(Seq::empty(), key) is None,
{
    reveal_strlit("@define-color");
}

/// Theme text is read line by line, and every line is looked at until one
/// names the key: for a first line `a` ended by a newline, the colour is the
/// one that `a` (without a `'\r'` before the newline) gives the key, or else
/// the colour that the rest `b` gives it; a last line without a newline is
/// read as it is; empty text names nothing.
pub proof fn law_color_read_line_by_line(a: Seq<char>, b: Seq<char>, key: Seq<char>)
    requires
        forall|i: int| 0 <= i < a.len() ==> a[i] != '\n',
    ensures
        theme_color(a + seq!['\n'] + b, key) == (match line_color(
            if a.len() > 0 && a.last() == '\r' {
                a.drop_last()
            } else {
                a
            },
            key,
        ) {
            Some(v) => Some(v),
            None => theme_color(b, key),
        }),
        a.len() > 0 ==> theme_color(a, key) == line_color(a, key),
        theme_color(Seq::empty(), key) is None,
{
    let pre = a + seq!['\n'];
    let s = pre + b;
    assert(a + seq!['\n'] + b == s);
    assert forall|i: int| 0 <= i < a.len() implies s[i] != '\n' by {
        assert(s[i] == a[i]);
    }
    assert(s[a.len() as int] == '\n');
    lemma_line_end_first(s, a.len() as int, 0);
    assert(s.subrange(0, a.len() as int) =~= a);
    lemma_lines_from_shift(pre, b, 0);
    assert(lines_from(s, 0) == seq![line_text(s, 0, a.len() as int)] + lines_from(s, pre.len() as int));
    lemma_color_in_lines_cons(line_text(s, 0, a.len() as int), lines_from(b, 0), key);
    if a.len() > 0 {
        lemma_line_end_first(a, a.len() as int, 0);
        assert(a.subrange(0, a.len() as int) =~= a);
        assert(lines_from(a, a.len() + 1int) == Seq::<Seq<char>>::empty());
        assert(lines_from(a, 0) == seq![a] + Seq::<Seq<char>>::empty());
        lemma_color_in_lines_cons(a, Seq::empty(), key);
    }
}

/// A CSS line `@define-color <key> <value>;` gives `key` the colour
/// `value`, whatever whitespace stands after `@define-color`, between key and
/// value, before the `;` and after it: for a key without whitespace and a
/// value that neither starts nor ends with whitespace nor ends with `;`.
pub proof fn law_define_color_line(
    sp1: Seq<char>,
    key: Seq<char>,
    sp2: Seq<char>,
    value: Seq<char>,
    sp3: Seq<char>,
    sp4: Seq<char>,
)
    requires
        all_space(sp1),
        all_space(sp2),
        sp2.len() > 0,
        all_space(sp3),
        all_space(sp4),
        key.len() > 0,
        forall|i: int| 0 <= i < key.len() ==> !is_space(#[trigger] key[i]),
        value.len() > 0,
        !is_space(value[0]),
        !is_space(value.last()),
        value.last() != ';',
    ensures
        line_color("@define-color"@ + sp1 + key + sp2 + value + sp3 + ";"@ + sp4, key) == Some(value),
{
    reveal_strlit("@define-color");
    reveal_strlit(";");
    let line = "@define-color"@ + sp1 + key + sp2 + value + sp3 + ";"@ + sp4;
    let z = key + sp2 + value + sp3;
    let y = z + seq![';'];
    assert(line.subrange(0, 13int) =~= "@define-color"@);
    assert(line.skip(13int) =~= sp1 + (y + sp4));
    lemma_trim_start_spaces(sp1, y + sp4);
    assert((y + sp4)[0] == key[0]);
    assert(trim_start(y + sp4) == y + sp4);
    lemma_trim_end_spaces(y, sp4);
    assert(!is_space(';'));
    assert(trim_end(y) == y);
    assert(trim(line.skip(13int)) == y);
    assert(y.drop_last() =~= z);
    assert(strip_end_char(y, ';') == strip_end_char(z, ';'));
    if sp3.len() > 0 {
        assert(z.last() == sp3.last());
        assert(is_space(sp3[sp3.len() - 1]));
    } else {
        assert(z.last() == value.last());
    }
    assert(strip_end_char(z, ';') == z);
    assert(z =~= key + (sp2 + value + sp3));
    assert((sp2 + value + sp3)[0] == sp2[0]);
    lemma_find_space_after(key, sp2 + value + sp3, 0);
    assert(find_space_from(z, 0) == Some(key.len() as int));
    assert(z.take(key.len() as int) =~= key);
    lemma_trim_keeps(key);
    let v = sp2.drop_first();
    assert(z.skip(key.len() + 1int) =~= v + (value + sp3));
    assert forall|i: int| 0 <= i < v.len() implies is_space(#[trigger] v[i]) by {
        assert(v[i] == sp2[i + 1]);
    }
    lemma_trim_start_spaces(v, value + sp3);
    assert((value + sp3)[0] == value[0]);
    assert(trim_start(value + sp3) == value + sp3);
    lemma_trim_end_spaces(value, sp3);
    assert(trim_end(value) == value);
    assert(trim(z.skip(key.len() + 1int)) == value);
    assert(define_color_value(line, "@define-color"@, key) == Some(value));
}

/// A TOML line `<key> = "<value>"` gives `key` the colour `value`, whatever
/// whitespace stands around the key, around `=` and after the value, and
/// however many quotes enclose it: for a key without whitespace or `=` that
/// does not start with `@`, and a value that neither starts nor ends with `"`.
pub proof fn law_assignment_line(
    sp0: Seq<char>,
    key: Seq<char>,
    sp1: Seq<char>,
    sp2: Seq<char>,
    qs1: Seq<char>,
    value: Seq<char>,
    qs2: Seq<char>,
    sp3: Seq<char>,
)
    requires
        all_space(sp0),
        all_space(sp1),
        all_space(sp2),
        all_space(sp3),
        all_char(qs1, '"'),
        all_char(qs2, '"'),
        qs1.len() > 0,
        qs2.len() > 0,
        key.len() > 0,
        key[0] != '@',
        forall|i: int| 0 <= i < key.len() ==> !is_space(#[trigger] key[i]) && key[i] != '=',
        value.len() > 0 ==> value[0] != '"' && value.last() != '"',
    ensures
        line_color(sp0 + key + sp1 + "="@ + sp2 + qs1 + value + qs2 + sp3, key) == Some(value),
{
    reveal_strlit("@define-color");
    reveal_strlit("=");
    let line = sp0 + key + sp1 + "="@ + sp2 + qs1 + value + qs2 + sp3;
    let k = sp0 + key + sp1;
    let quoted = qs1 + value + qs2;
    let after = seq!['='] + (sp2 + quoted + sp3);
    assert(line =~= k + after);
    assert(!is_space('"'));
    assert(!has_prefix(line, "@define-color"@)) by {
        if has_prefix(line, "@define-color"@) {
            assert(line.subrange(0, 13int)[0] == line[0]);
            if sp0.len() > 0 {
                assert(line[0] == sp0[0]);
                assert(is_space(sp0[0]));
            } else {
                assert(line[0] == key[0]);
            }
        }
    }
    assert forall|i: int| 0 <= i < k.len() implies #[trigger] k[i] != '=' by {
        if i < sp0.len() {
            assert(k[i] == sp0[i]);
            assert(is_space(sp0[i]));
        } else if i < sp0.len() + key.len() {
            assert(k[i] == key[i - sp0.len()]);
        } else {
            assert(k[i] == sp1[i - sp0.len() - key.len()]);
            assert(is_space(sp1[i - sp0.len() - key.len()]));
        }
    }
    lemma_find_char_after(k, after, '=', 0);
    assert(line.take(k.len() as int) =~= k);
    assert(k =~= sp0 + (key + sp1));
    lemma_trim_start_spaces(sp0, key + sp1);
    assert((key + sp1)[0] == key[0]);
    assert(trim_start(key + sp1) == key + sp1);
    lemma_trim_end_spaces(key, sp1);
    lemma_trim_keeps(key);
    assert(trim(line.take(k.len() as int)) == key);
    assert(line.skip(k.len() + 1int) =~= sp2 + (quoted + sp3));
    lemma_trim_start_spaces(sp2, quoted + sp3);
    assert((quoted + sp3)[0] == qs1[0]);
    assert(trim_start(quoted + sp3) == quoted + sp3);
    lemma_trim_end_spaces(quoted, sp3);
    assert(quoted.last() == qs2.last());
    assert(qs2.last() == qs2[qs2.len() - 1]);
    assert(trim_end(quoted) == quoted);
    assert(trim(line.skip(k.len() + 1int)) == quoted);
    assert(quoted =~= qs1 + (value + qs2));
    lemma_strip_start_run(qs1, value + qs2, '"');
    if value.len() > 0 {
        assert((value + qs2)[0] == value[0]);
        assert(strip_start_char(value + qs2, '"') == value + qs2);
        lemma_strip_end_run(value, qs2, '"');
        assert(strip_end_char(value, '"') == value);
    } else {
        assert(value + qs2 =~= qs2);
        lemma_strip_start_run(qs2, Seq::<char>::empty(), '"');
        assert(qs2 + Seq::<char>::empty() =~= qs2);
        assert(strip_start_char(qs2, '"') == Seq::<char>::empty());
        assert(strip_end_char(Seq::<char>::empty(), '"') == value);
    }
    assert(strip_char(quoted, '"') == value);
    assert(assignment_value(line, key) == Some(value));
    assert(define_color_value(line, "@define-color"@, key) is None);
}

} // verus!

verus! {

/// The stylesheet is the four theme colour definitions followed by every
/// rule, unchanged: it ends with all of the rules, and what comes before
/// them is exactly the definitions of `_fg`, `_bg`, `_accent` and `_surface`.
pub proof fn law_stylesheet_keeps_every_rule(colors: ThemeColors)
    ensures
        ({
            let defs = "\n@define-color _fg "@ + colors.foreground@ + ";\n@define-color _bg "@
                + colors.background@ + ";\n@define-color _accent "@ + colors.accent@
                + ";\n@define-color _surface "@ + colors.surface@;
            let t = stylesheet_text(colors);
            &&& t == defs + STYLESHEET_RULES@
            &&& t.len() == defs.len() + STYLESHEET_RULES@.len()
            &&& t.take(defs.len() as int) == defs
            &&& t.skip(defs.len() as int) == STYLESHEET_RULES@
            &&& t.skip(t.len() - STYLESHEET_RULES@.len()) == STYLESHEET_RULES@
        }),
{
    let defs = "\n@define-color _fg "@ + colors.foreground@ + ";\n@define-color _bg "@
        + colors.background@ + ";\n@define-color _accent "@ + colors.accent@
        + ";\n@define-color _surface "@ + colors.surface@;
    let t = stylesheet_text(colors);
    assert(t =~= defs + STYLESHEET_RULES@);
    assert(t.take(defs.len() as int) =~= defs);
    assert(t.skip(defs.len() as int) =~= STYLESHEET_RULES@);
}

} // verus!
