use faust::index::{FileEntry, Hit};
use faust::text::push_decimal;
use faust::palette::{
    display_path, elide_left, idle_order, rank_scored_commands, rank_scored_files, Command, Mode,
    Outcome, Palette, Row, COMMAND_COUNT, COMMAND_ROWS, SEARCH_ROWS,
};

fn titles(palette: &Palette) -> Vec<&str> {
    palette
        .rows()
        .iter()
        .filter_map(|row| match row {
            Row::Command(command) => Some(command.title()),
            _ => None,
        })
        .collect()
}

#[test]
fn every_command_has_a_unique_id() {
    let mut ids: Vec<&str> = Command::all().iter().map(|c| c.id()).collect();
    ids.sort_unstable();
    let unique = ids.len();
    ids.dedup();
    assert_eq!(ids.len(), unique, "duplicate command id");
}

#[test]
fn an_idle_palette_lists_recent_commands_first() {
    let mut palette = Palette::new();
    palette.show(Mode::Command);
    palette.rank_commands(&["quit".to_owned(), "toggle-theme".to_owned()]);
    assert_eq!(
        &titles(&palette)[..2],
        &[Command::Quit.title(), Command::ToggleTheme.title()]
    );
    // Every command stays reachable by scrolling, not just the recent ones.
    assert_eq!(palette.rows().len(), Command::all().len());
}

#[test]
fn only_five_command_rows_are_offered() {
    let mut palette = Palette::new();
    palette.show(Mode::Command);
    palette.rank_commands(&[]);
    assert_eq!(palette.visible_rows(), COMMAND_ROWS);
}

#[test]
fn typing_ranks_the_best_command_first() {
    let mut palette = Palette::new();
    palette.show(Mode::Command);
    palette.query = "clostab".to_owned();
    palette.rank_commands(&[]);
    assert_eq!(titles(&palette).first(), Some(&Command::CloseTab.title()));
}

#[test]
fn opening_the_palette_moves_the_epoch() {
    let mut palette = Palette::new();
    let before = palette.epoch;
    palette.show(Mode::File);
    assert_ne!(palette.epoch, before, "callers cache their rows on this");
}

#[test]
fn file_ranking_prefers_the_closer_name() {
    let entry = |display: &str| FileEntry {
        path: display.to_owned(),
        display: display.to_owned(),
        is_dir: false,
    };
    let entries = vec![
        entry("a/b/c/unrelated.md"),
        entry("notes/design.md"),
        entry("d/e/s/i/g/n.md"),
    ];
    let mut palette = Palette::new();
    palette.show(Mode::File);
    palette.query = "design".to_owned();
    palette.rank_files(&entries, false);

    let first = match &palette.rows()[0] {
        Row::Path { display, .. } => display.as_str(),
        _ => panic!("expected a path row"),
    };
    assert_eq!(first, "notes/design.md");
    assert!(!palette.rows().iter().any(|row| matches!(
        row,
        Row::Path { display, .. } if display.contains("unrelated")
    )));
}

#[test]
fn an_empty_result_explains_itself_and_is_not_selectable() {
    let mut palette = Palette::new();
    palette.show(Mode::File);
    palette.query = "zzzz".to_owned();
    palette.rank_files(&[], true);
    assert!(matches!(&palette.rows()[0], Row::Note(text) if text.contains("indexing")));
    assert!(palette.activate(0).is_none());
}

#[test]
fn long_paths_are_elided_from_the_left() {
    assert_eq!(elide_left("/short", 44), "/short");
    let long = "/a/very/long/path/that/keeps/going/and/going/and/going/further";
    let out = elide_left(long, 20);
    assert_eq!(out.chars().count(), 20);
    assert!(out.starts_with('\u{2026}'));
    assert!(long.ends_with(&out[out.char_indices().nth(1).unwrap().0..]));
}

#[test]
fn eliding_to_nothing_leaves_the_ellipsis() {
    assert_eq!(elide_left("abc", 0), "\u{2026}");
    assert_eq!(elide_left("abc", 1), "\u{2026}");
    assert_eq!(elide_left("abcd", 2), "\u{2026}d");
}

#[test]
fn the_home_folder_is_shown_as_a_tilde() {
    assert_eq!(display_path("/home/me/notes", Some("/home/me")), "~/notes");
    assert_eq!(display_path("/home/me", Some("/home/me")), "~");
    assert_eq!(display_path("/srv/notes", Some("/home/me")), "/srv/notes");
    assert_eq!(display_path("/srv/notes", None), "/srv/notes");
}

#[test]
fn recency_breaks_ties_between_equal_scores() {
    let scores = vec![Some(5u32); COMMAND_COUNT];
    let order = rank_scored_commands(&scores, &["quit".to_owned(), "close-tab".to_owned()]);
    assert_eq!(order[0], Command::Quit);
    assert_eq!(order[1], Command::CloseTab);
    assert_eq!(order.len(), COMMAND_COUNT);
    let mut few = vec![None; COMMAND_COUNT];
    few[3] = Some(1);
    few[0] = Some(9);
    assert_eq!(rank_scored_commands(&few, &[]), vec![Command::all()[0], Command::all()[3]]);
}

#[test]
fn the_idle_order_ignores_unknown_ids() {
    let order = idle_order(&["nope".to_owned(), "quit".to_owned(), "quit".to_owned()]);
    assert_eq!(order[0], Command::Quit);
    assert_eq!(order[1], Command::Quit);
    assert_eq!(order.len(), COMMAND_COUNT + 1);
    assert_eq!(Command::from_id("find-file"), Some(Command::FindFile));
    assert_eq!(Command::from_id("nope"), None);
}

#[test]
fn files_tie_on_score_by_name_and_are_capped() {
    let entries: Vec<FileEntry> = (0..60)
        .map(|n| FileEntry { path: format!("/v/{:02}", 59 - n), display: format!("{:02}", 59 - n), is_dir: false })
        .collect();
    let scores = vec![Some(3u32); 60];
    let order = rank_scored_files(&entries, &scores);
    assert_eq!(order.len(), 48);
    assert_eq!(entries[order[0]].display, "00");
    assert_eq!(entries[order[1]].display, "01");
}

#[test]
fn hits_fill_the_rows_and_explain_an_empty_list() {
    let mut palette = Palette::new();
    palette.show(Mode::Content);
    palette.set_hits(&[], false);
    assert!(matches!(&palette.rows()[0], Row::Note(t) if t == "type to search note contents"));
    palette.query = "x".to_owned();
    palette.set_hits(&[], true);
    assert!(matches!(&palette.rows()[0], Row::Note(t) if t == "searching\u{2026}"));
    let hit = Hit { path: "/v/a.md".to_owned(), display: "a.md".to_owned(), line: 12, text: "x marks".to_owned() };
    palette.set_hits(&[hit], false);
    let label = palette.row_label(0).expect("a row");
    assert_eq!(label.primary, "x marks");
    assert_eq!(label.secondary, "a.md:12");
    assert!(matches!(palette.activate(0), Some(Outcome::Open(p)) if p == "/v/a.md"));
}

#[test]
fn the_selection_wraps_around_the_visible_rows() {
    let mut palette = Palette::new();
    palette.show(Mode::Command);
    palette.rank_commands(&[]);
    palette.move_selection(true, false);
    assert_eq!(palette.selected(), COMMAND_ROWS - 1);
    palette.move_selection(false, true);
    assert_eq!(palette.selected(), 0);
    assert!(SEARCH_ROWS > COMMAND_ROWS);
}

#[test]
fn the_folder_picker_offers_use_up_and_subfolders() {
    let mut palette = Palette::new();
    palette.show(Mode::Vault);
    palette.browse = "/home/me".to_owned();
    let listing = vec![
        FileEntry { path: "/home/me/notes".to_owned(), display: "notes".to_owned(), is_dir: true },
        FileEntry { path: "/home/me/.cache".to_owned(), display: ".cache".to_owned(), is_dir: true },
        FileEntry { path: "/home/me/file.txt".to_owned(), display: "file.txt".to_owned(), is_dir: false },
    ];
    palette.rank_folders(&listing);
    let rows = palette.rows();
    assert_eq!(rows.len(), 3);
    assert!(matches!(&rows[0], Row::UseFolder(p) if p == "/home/me"));
    assert!(matches!(&rows[1], Row::Folder { path, label } if path == "/home" && label == ".."));
    assert!(matches!(&rows[2], Row::Folder { label, .. } if label == "notes"));
    assert_eq!(palette.row_label(0).unwrap().primary, "Open \u{201c}me\u{201d} as vault");
    assert!(palette.activate(2).is_none());
    assert_eq!(palette.browse, "/home/me/notes");
}

#[test]
fn decimals_are_written_in_full() {
    let mut s = String::new();
    push_decimal(&mut s, 0);
    push_decimal(&mut s, 4_294_967_295);
    push_decimal(&mut s, u64::MAX);
    assert_eq!(s, "0429496729518446744073709551615");
}

#[test]
fn the_palette_shortcut_opens_and_dismisses_it() {
    let mut palette = Palette::new();
    palette.toggle(Mode::Command);
    assert!(palette.open);
    assert_eq!(palette.mode, Mode::Command);
    palette.toggle(Mode::Command);
    assert!(!palette.open);
    palette.show(Mode::File);
    palette.toggle(Mode::Command);
    assert!(palette.open);
    assert_eq!(palette.mode, Mode::Command);
}
