use faust::settings::{read_settings, Numbers, Settings};
use faust::config::{
    bool_str, join_list, parse_list, parse_setting, push_setting, touch_command, Key, ThemeMode, TreeSide,
    RECENT_LIMIT,
};

#[test]
fn unknown_keys_survive_a_round_trip() {
    let mut cfg = Settings::new();
    cfg.set("future_option", "42");
    assert_eq!(cfg.unknown, vec![("future_option".to_owned(), "42".to_owned())]);
}

#[test]
fn recent_commands_deduplicate_and_move_to_front() {
    let mut recent: Vec<String> = Vec::new();
    touch_command(&mut recent, "a");
    touch_command(&mut recent, "b");
    touch_command(&mut recent, "a");
    assert_eq!(recent, vec!["a", "b"]);
}

#[test]
fn the_recent_list_is_capped() {
    let mut recent: Vec<String> = Vec::new();
    for n in 0..40 {
        touch_command(&mut recent, &format!("c{n}"));
    }
    assert_eq!(recent.len(), RECENT_LIMIT);
    assert_eq!(recent[0], "c39");
}

#[test]
fn comments_blank_lines_and_lines_without_equals_are_skipped() {
    assert_eq!(parse_setting("# a comment = 1"), None);
    assert_eq!(parse_setting("   "), None);
    assert_eq!(parse_setting("no equals here"), None);
    assert_eq!(parse_setting("  theme =  dark "), Some(("theme".to_owned(), "dark".to_owned())));
    assert_eq!(parse_setting("vault ="), Some(("vault".to_owned(), String::new())));
}

#[test]
fn known_keys_are_recognised() {
    assert_eq!(Key::of("opacity"), Key::Opacity);
    assert_eq!(Key::of("recent_commands"), Key::RecentCommands);
    assert_eq!(Key::of("Opacity"), Key::Unknown);
}

#[test]
fn lists_round_trip_through_their_setting() {
    let list = vec!["quit".to_owned(), "toggle-theme".to_owned()];
    let text = join_list(&list);
    assert_eq!(text, "quit,toggle-theme");
    assert_eq!(parse_list(&text), list);
    assert_eq!(parse_list(" a , ,b,"), vec!["a", "b"]);
    assert!(parse_list("").is_empty());
}

#[test]
fn enum_settings_read_and_write() {
    assert_eq!(TreeSide::parse("bottom"), Some(TreeSide::Bottom));
    assert_eq!(TreeSide::parse("top"), None);
    assert_eq!(TreeSide::Right.label(), "right");
    assert_eq!(ThemeMode::parse("dark"), Some(ThemeMode::Dark));
    assert_eq!(ThemeMode::Light.toggled(), ThemeMode::Dark);
    assert_eq!(ThemeMode::Dark.toggled().label(), "light");
    assert_eq!(TreeSide::default(), TreeSide::Left);
    assert_eq!(ThemeMode::default(), ThemeMode::Light);
    assert_eq!(bool_str(true), "true");
    assert_eq!(bool_str(false), "false");
}

fn numbers() -> Numbers {
    Numbers {
        tree_size: "300".to_owned(),
        opacity: "0.75".to_owned(),
        blur: "8".to_owned(),
        font_size: "15".to_owned(),
        window_width: "1200".to_owned(),
        window_height: "800".to_owned(),
    }
}

#[test]
fn a_saved_file_reads_back_the_same_settings() {
    let mut cfg = Settings::new();
    cfg.vault = Some("/home/me/notes".to_owned());
    cfg.tree_side = TreeSide::Bottom;
    cfg.tree_visible = false;
    cfg.theme = ThemeMode::Dark;
    cfg.decorations = true;
    cfg.recent_commands = vec!["quit".to_owned(), "find-file".to_owned()];
    cfg.set("future_option", "42");
    let text = cfg.text(&numbers());
    assert!(text.starts_with("# Faust settings."));
    assert!(text.contains("\ntree_size = 300\n"));
    let (back, numbers) = read_settings(&text);
    assert_eq!(back, cfg);
    assert_eq!(
        numbers,
        vec![
            (Key::TreeSize, "300".to_owned()),
            (Key::Opacity, "0.75".to_owned()),
            (Key::Blur, "8".to_owned()),
            (Key::FontSize, "15".to_owned()),
            (Key::WindowWidth, "1200".to_owned()),
            (Key::WindowHeight, "800".to_owned()),
        ]
    );
}

#[test]
fn values_that_name_nothing_fall_back_to_the_defaults() {
    let (cfg, numbers) = read_settings("# comment\ntheme = purple\ntree_side = top\nvault =\ntree_visible = yes\r\nnot a setting\n");
    assert_eq!(cfg.theme, ThemeMode::Light);
    assert_eq!(cfg.tree_side, TreeSide::Left);
    assert_eq!(cfg.vault, None);
    assert!(!cfg.tree_visible);
    assert!(numbers.is_empty());
    assert!(cfg.unknown.is_empty());
}
