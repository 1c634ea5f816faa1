use desktop_tui::path::{color_scheme_file_name, join, path_file_name, template_file_name};
use desktop_tui::template::{
    HorizontalAlignment, HorizontalPosition, TextureFilterChoice, VerticalAlignment,
    WidgetTemplate,
};
use desktop_tui::theme::{color_value_is_readable, parse_color, IniDocument, Theme};
use desktop_tui::frame::TerminalColor;

#[test]
fn section_filter_is_case_insensitive() {
    let mut template = WidgetTemplate::default();
    template.system.sections = vec!["hardware".into()];
    assert!(template.includes_section("HARDWARE"));
    assert!(!template.includes_section("SYSTEM"));
}

#[test]
fn defaults_show_every_section_without_a_model() {
    let template = WidgetTemplate::default();
    assert_eq!(template.name, "System information");
    assert_eq!(template.outer_margin, 2);
    assert!(!template.model.enabled);
    assert_eq!(template.model.texture_filter, TextureFilterChoice::Nearest);
    assert!(template.system.enabled);
    assert_eq!(template.system.width_percent, 70);
    assert_eq!(template.system.horizontal_position, HorizontalPosition::Center);
    assert_eq!(template.system.horizontal_alignment, HorizontalAlignment::Center);
    assert_eq!(template.system.vertical_alignment, VerticalAlignment::Center);
    assert!(template.includes_section("anything"));
}

#[test]
fn normalization_bounds_whole_numbers_and_drops_blank_sections() {
    let mut template = WidgetTemplate::default();
    template.outer_margin = 99;
    template.system.width_percent = 4;
    template.system.sections = vec!["SYSTEM".into(), "  ".into(), "".into(), "NETWORK".into()];
    template.normalize();
    assert_eq!(template.outer_margin, 20);
    assert_eq!(template.system.width_percent, 10);
    assert_eq!(template.system.sections, ["SYSTEM", "NETWORK"]);
    template.system.width_percent = 250;
    template.normalize();
    assert_eq!(template.system.width_percent, 100);
}

#[test]
fn model_path_prefers_the_override() {
    let mut template = WidgetTemplate::default();
    assert_eq!(template.model_path(Some("/x.glb"), "/assets"), None);
    template.model.enabled = true;
    assert_eq!(template.model_path(None, "/assets"), None);
    template.model.asset = "fox.glb".into();
    assert_eq!(template.model_path(None, "/assets"), Some("/assets/fox.glb".into()));
    assert_eq!(template.model_path(Some(""), "/assets/"), Some("/assets/fox.glb".into()));
    assert_eq!(template.model_path(Some("/m.glb"), "/assets"), Some("/m.glb".into()));
    template.model.asset = "/abs/fox.glb".into();
    assert_eq!(template.model_path(None, "/assets"), Some("/abs/fox.glb".into()));
}

#[test]
fn file_names_follow_path_components() {
    assert_eq!(path_file_name("/usr/bin/zsh"), Some("zsh".into()));
    assert_eq!(path_file_name("a//b/"), Some("b".into()));
    assert_eq!(path_file_name("a/./"), Some("a".into()));
    assert_eq!(path_file_name("a/.."), None);
    assert_eq!(path_file_name("/"), None);
    assert_eq!(path_file_name("."), None);
    assert_eq!(path_file_name(""), None);
    assert_eq!(join("dir", "f"), "dir/f");
    assert_eq!(join("dir/", "f"), "dir/f");
    assert_eq!(join("", "f"), "f");
    assert_eq!(join("dir", "/f"), "/f");
}

#[test]
fn template_ids_must_be_plain_names() {
    assert_eq!(template_file_name("model-system"), Some("model-system.json".into()));
    assert_eq!(template_file_name("../secret"), None);
    assert_eq!(template_file_name("a/b"), None);
    assert_eq!(template_file_name("a/"), None);
    assert_eq!(color_scheme_file_name("BreezeDark"), Some("BreezeDark.colors".into()));
    assert_eq!(color_scheme_file_name("/x/Nord.colors"), Some("Nord.colors".into()));
    assert_eq!(color_scheme_file_name(".."), None);
}

#[test]
fn colors_parse_in_both_notations() {
    assert_eq!(parse_color("#ff8000"), Some(TerminalColor::Rgb(255, 128, 0)));
    assert_eq!(parse_color("#80FF8000"), Some(TerminalColor::Rgb(255, 128, 0)));
    assert_eq!(parse_color("#+f+f+f"), Some(TerminalColor::Rgb(15, 15, 15)));
    assert_eq!(parse_color("#ff80"), None);
    assert_eq!(parse_color("#gg0000"), None);
    assert_eq!(parse_color(" 12 , 34,56 "), Some(TerminalColor::Rgb(12, 34, 56)));
    assert_eq!(parse_color("12,34"), None);
    assert_eq!(parse_color("12,34,256"), None);
    assert_eq!(parse_color("12,34,5,6"), None);
    assert_eq!(parse_color("#ééé"), None);
    assert!(color_value_is_readable("#ééé"));
    assert!(!color_value_is_readable("#ab€d"));
    assert!(color_value_is_readable("1,2,3"));
}

const SCHEME: &str = "[General]\nColorScheme=Nord\n\n# comment\n; also\n[Colors:View]\nForegroundNormal = 1,2,3\nDecorationHover=#0a0b0c\nForegroundNormal=4,5,6\n[Colors:Window]\nForegroundNormal=oops\n[Colors:Selection]\nBackgroundNormal=7,8,9\n";

#[test]
fn ini_documents_keep_the_last_value() {
    let doc = IniDocument::parse(SCHEME);
    assert_eq!(doc.value("General", "ColorScheme"), Some("Nord"));
    assert_eq!(doc.value("Colors:View", "ForegroundNormal"), Some("4,5,6"));
    assert_eq!(doc.value("Colors:View", "Missing"), None);
    assert_eq!(doc.value("", "ColorScheme"), None);
    assert_eq!(doc.color("Colors:Window", "ForegroundNormal"), None);
    assert_eq!(doc.color("Colors:View", "DecorationHover"), Some(TerminalColor::Rgb(10, 11, 12)));
}

#[test]
fn theme_falls_back_key_by_key() {
    let doc = IniDocument::parse(SCHEME);
    assert!(Theme::scheme_is_readable(&doc));
    let theme = Theme::from_scheme(&doc);
    assert_eq!(theme.text, TerminalColor::Rgb(4, 5, 6));
    assert_eq!(theme.accent, TerminalColor::Rgb(7, 8, 9));
    assert_eq!(theme.model, TerminalColor::Rgb(7, 8, 9));
    assert_eq!(theme.accent_muted, TerminalColor::Rgb(171, 170, 181));
    assert_eq!(theme.accent_dim, TerminalColor::Rgb(10, 11, 12));
    let empty = Theme::from_scheme(&IniDocument::parse(""));
    assert_eq!(empty.text, TerminalColor::Rgb(230, 228, 240));
    assert_eq!(empty.accent, TerminalColor::Rgb(192, 196, 238));
    assert_eq!(Theme::fallback().accent, TerminalColor::Rgb(181, 34, 62));
}

#[test]
fn hex_colour_is_read_by_byte() {
    assert_eq!(parse_color("#é112233"), Some(TerminalColor::Rgb(17, 34, 51)));
    assert_eq!(parse_color("#11é2233"), None);
    assert_eq!(parse_color("#éé"), None);
}

#[test]
fn template_defaults_are_safe_without_a_model() {
    let template = WidgetTemplate::default();
    assert!(!template.model.enabled);
    assert!(template.system.enabled);
    assert_eq!(template.system.width_percent, 70);
}

#[test]
fn template_normalization_bounds_user_values() {
    let mut template = WidgetTemplate::default();
    template.outer_margin = 99;
    template.system.width_percent = 4;

    template.normalize();

    assert_eq!(template.outer_margin, 20);
    assert_eq!(template.system.width_percent, 10);
}
