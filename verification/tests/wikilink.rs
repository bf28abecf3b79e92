use faust::index::{indexes, FileEntry};
use faust::wikilink::{resolve_note, NoteLink};

fn note(path: &str, display: &str) -> FileEntry {
    FileEntry { path: path.to_owned(), display: display.to_owned(), is_dir: false }
}

fn vault() -> Vec<FileEntry> {
    vec![
        FileEntry { path: "/v/Ideas".to_owned(), display: "Ideas".to_owned(), is_dir: true },
        note("/v/Ideas/Garden.md", "Ideas/Garden.md"),
        note("/v/garden.txt", "garden.txt"),
        note("/v/Daily Log.md", "Daily Log.md"),
    ]
}

fn found(link: NoteLink) -> Option<String> {
    match link {
        NoteLink::Found(path) => Some(path),
        _ => None,
    }
}

#[test]
fn a_link_finds_a_note_by_its_stem_without_case() {
    assert_eq!(found(resolve_note(&vault(), "garden")).as_deref(), Some("/v/Ideas/Garden.md"));
    assert_eq!(found(resolve_note(&vault(), "DAILY LOG")).as_deref(), Some("/v/Daily Log.md"));
}

#[test]
fn a_link_finds_a_note_by_its_vault_path() {
    assert_eq!(found(resolve_note(&vault(), "ideas/garden")).as_deref(), Some("/v/Ideas/Garden.md"));
    assert_eq!(found(resolve_note(&vault(), "garden.txt")).as_deref(), Some("/v/garden.txt"));
}

#[test]
fn a_heading_anchor_and_spaces_are_ignored() {
    assert_eq!(found(resolve_note(&vault(), "  Garden #Soil ")).as_deref(), Some("/v/Ideas/Garden.md"));
}

#[test]
fn a_bare_anchor_is_ignored() {
    assert!(matches!(resolve_note(&vault(), "#top"), NoteLink::Blank));
    assert!(matches!(resolve_note(&vault(), "   "), NoteLink::Blank));
}

#[test]
fn folders_never_answer_a_link() {
    let only_folder = vec![FileEntry { path: "/v/Ideas".to_owned(), display: "Ideas".to_owned(), is_dir: true }];
    match resolve_note(&only_folder, "Ideas") {
        NoteLink::Missing(message) => assert_eq!(message, "no note named \u{201c}Ideas\u{201d}"),
        _ => panic!("a folder answered a link"),
    }
}

#[test]
fn an_unknown_note_is_reported_by_name() {
    match resolve_note(&vault(), "Nowhere#x") {
        NoteLink::Missing(message) => assert_eq!(message, "no note named \u{201c}Nowhere\u{201d}"),
        _ => panic!("an unknown note resolved"),
    }
}

#[test]
fn the_index_knows_the_paths_it_holds() {
    assert!(indexes(&vault(), "/v/garden.txt"));
    assert!(!indexes(&vault(), "/v/new.md"));
}

#[test]
fn the_index_matches_paths_by_their_components() {
    assert!(indexes(&vault(), "/v//garden.txt"));
    assert!(indexes(&vault(), "/v/Ideas/"));
}
