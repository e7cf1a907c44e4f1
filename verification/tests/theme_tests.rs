use audio_control::theme::{
    colors_toml_path, parse_color, stylesheet, theme_colors_from_files, theme_dir, waybar_css_path,
    ThemeColors,
};

#[test]
fn parse_color_reads_css_definition() {
    let css = "@define-color foreground #ffcead;\n@define-color background #101010;\n";
    assert_eq!(parse_color(css, "foreground"), Some("#ffcead".to_string()));
    assert_eq!(parse_color(css, "background"), Some("#101010".to_string()));
}

#[test]
fn parse_color_reads_toml_assignment() {
    let toml = "accent = \"#7d82d9\"\ncursor = \"#ffffff\"\n";
    assert_eq!(parse_color(toml, "accent"), Some("#7d82d9".to_string()));
    assert_eq!(parse_color(toml, "cursor"), Some("#ffffff".to_string()));
}

#[test]
fn parse_color_missing_key_is_none() {
    assert_eq!(parse_color("accent = \"#7d82d9\"\n", "foreground"), None);
    assert_eq!(parse_color("", "accent"), None);
    assert_eq!(parse_color("@define-color foreground;\n", "foreground"), None);
}

#[test]
fn parse_color_first_line_wins() {
    let text = "accent = \"#111111\"\naccent = \"#222222\"\n";
    assert_eq!(parse_color(text, "accent"), Some("#111111".to_string()));
}

#[test]
fn parse_color_trims_spaces_and_semicolons() {
    let text = "@define-color   foreground   #abcdef ;;  \r\nx = 1";
    assert_eq!(parse_color(text, "foreground"), Some("#abcdef".to_string()));
    let toml = "  accent   =   \"\"#123456\"\"  ";
    assert_eq!(parse_color(toml, "accent"), Some("#123456".to_string()));
}

#[test]
fn parse_color_css_line_may_fall_back_to_assignment() {
    let text = "@define-color other #000000; foreground = #ffffff";
    assert_eq!(parse_color(text, "foreground"), None);
    assert_eq!(parse_color("@define-color=#fff", "@define-color"), Some("#fff".to_string()));
    assert_eq!(parse_color("@define-colorfoo = bar", "foo"), Some("= bar".to_string()));
}

#[test]
fn parse_color_keeps_carriage_return_of_last_line() {
    assert_eq!(parse_color("accent = \"#abcdef\"\r\n", "accent"), Some("#abcdef".to_string()));
    assert_eq!(parse_color("a = b\r", "a"), Some("b".to_string()));
    assert_eq!(parse_color("a = x\ny = z", "y"), Some("z".to_string()));
}

#[test]
fn theme_colors_use_defaults_when_files_are_missing() {
    let colors = theme_colors_from_files(&None, &None);
    assert_eq!(colors.foreground, "#cdd6f4");
    assert_eq!(colors.background, "#1e1e2e");
    assert_eq!(colors.accent, "#f5c2e7");
    assert_eq!(colors.surface, "alpha(@_fg, 0.08)");
}

#[test]
fn theme_colors_come_from_files() {
    let waybar = Some("@define-color foreground #eeeeee;\n".to_string());
    let table = Some("accent = \"#ff0000\"\n".to_string());
    let colors = theme_colors_from_files(&waybar, &table);
    assert_eq!(colors.foreground, "#eeeeee");
    assert_eq!(colors.background, "#1e1e2e");
    assert_eq!(colors.accent, "#ff0000");
}

#[test]
fn theme_paths() {
    let dir = theme_dir("/home/ana");
    assert_eq!(dir, "/home/ana/.config/omarchy/current/theme");
    assert_eq!(waybar_css_path(&dir), "/home/ana/.config/omarchy/current/theme/waybar.css");
    assert_eq!(colors_toml_path(&dir), "/home/ana/.config/omarchy/current/theme/colors.toml");
}

#[test]
fn stylesheet_defines_theme_colours_first() {
    let colors = ThemeColors {
        foreground: "#111111".to_string(),
        background: "#222222".to_string(),
        accent: "#333333".to_string(),
        surface: "alpha(@_fg, 0.08)".to_string(),
    };
    let css = stylesheet(&colors);
    assert!(css.starts_with(
        "\n@define-color _fg #111111;\n@define-color _bg #222222;\n@define-color _accent #333333;\n@define-color _surface alpha(@_fg, 0.08);\n"
    ));
    assert!(css.contains("window.backdrop-capture {\n    background-color: rgba(0, 0, 0, 0.02);"));
    assert!(css.ends_with(".carousel-dot.active {\n    background: @_fg;\n}\n"));
}

#[test]
fn surface_colour_comes_from_theme() {
    let table = Some("surface = \"#313244\"\n".to_string());
    let colors = theme_colors_from_files(&None, &table);
    assert_eq!(colors.surface, "#313244");
    let waybar = Some("@define-color surface #45475a;\n".to_string());
    assert_eq!(theme_colors_from_files(&waybar, &None).surface, "#45475a");
    assert_eq!(theme_colors_from_files(&waybar, &table).surface, "#313244");
    let css = stylesheet(&theme_colors_from_files(&None, &table));
    assert!(css.contains(";\n@define-color _surface #313244;\n@define-color _surface_hover alpha(@_fg, 0.14);\n"));
}
