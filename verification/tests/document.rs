use faust::document::{has_nul, is_markdown, title_of, within_limit, Document, Fetched, Status, MAX_BYTES};
use faust::markdown::Block;

#[test]
fn titles_drop_only_the_markdown_extension() {
    assert_eq!(title_of("/v/Daily Note.md"), "Daily Note");
    assert_eq!(title_of("/v/main.rs"), "main.rs");
    assert_eq!(title_of("/v/.gitignore"), ".gitignore");
}

#[test]
fn markdown_is_recognised_by_extension_in_any_case() {
    assert!(is_markdown("/v/a.md"));
    assert!(is_markdown("/v/a.MARKDOWN"));
    assert!(is_markdown("/v/a.txt"));
    assert!(!is_markdown("/v/a.log"));
    assert!(!is_markdown("/v/md"));
}

#[test]
fn a_missing_file_opens_empty() {
    let doc = Document::open("/nonexistent/a.md".to_owned(), Fetched::Missing);
    assert_eq!(doc.title, "a");
    assert_eq!(doc.status, Status::Missing);
    assert!(doc.body.blocks.is_empty());
    assert_eq!(doc.revision, 1);
}

#[test]
fn markdown_is_parsed_and_other_text_shown_as_code() {
    let note = Document::open("/v/n.md".to_owned(), Fetched::Bytes(b"# Hi\n".to_vec()));
    assert_eq!(note.status, Status::Ready);
    assert!(matches!(&note.body.blocks[0], Block::Heading { level: 1, .. }));

    let code = Document::open("/v/main.RS".to_owned(), Fetched::Bytes(b"fn main() {}".to_vec()));
    let Block::Code { lang, text } = &code.body.blocks[0] else {
        panic!("expected code");
    };
    assert_eq!(lang.as_deref(), Some("rs"));
    assert_eq!(text, "fn main() {}");
}

#[test]
fn binary_files_show_nothing() {
    let doc = Document::open("/v/x.bin".to_owned(), Fetched::Bytes(vec![1, 0, 2]));
    assert_eq!(doc.status, Status::Binary);
    assert!(doc.body.blocks.is_empty());
    assert!(has_nul(&vec![7, 0]));
    assert!(!has_nul(&vec![7, 8]));
}

#[test]
fn oversized_and_unreadable_files_report_why() {
    let big = Document::open("/v/big.md".to_owned(), Fetched::TooLarge(MAX_BYTES + 1));
    assert_eq!(big.status, Status::TooLarge(MAX_BYTES + 1));
    let bad = Document::open("/v/bad.md".to_owned(), Fetched::Failed("denied".to_owned()));
    assert_eq!(bad.status, Status::Error("denied".to_owned()));
    assert!(within_limit(MAX_BYTES));
    assert!(!within_limit(MAX_BYTES + 1));
}

#[test]
fn reloading_bumps_the_revision() {
    let mut doc = Document::open("/v/n.md".to_owned(), Fetched::Missing);
    doc.reload(Fetched::Bytes(b"text".to_vec()));
    assert_eq!(doc.revision, 2);
    assert_eq!(doc.status, Status::Ready);
    doc.revision = u64::MAX;
    doc.reload(Fetched::Missing);
    assert_eq!(doc.revision, 0);
}

#[test]
fn invalid_utf8_is_replaced_not_rejected() {
    let doc = Document::open("/v/t.log".to_owned(), Fetched::Bytes(vec![b'a', 0xff, b'b']));
    let Block::Code { text, .. } = &doc.body.blocks[0] else {
        panic!("expected code");
    };
    assert_eq!(text, "a\u{fffd}b");
}
