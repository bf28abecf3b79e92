use faust::markdown::builder::Builder;
use faust::markdown::events::{Event, Extra, Shape, TagKind};
use faust::markdown::{as_code, parse, Block, Link, Span};
use faust::render::Action;

fn text_of(spans: &[Span]) -> String {
    spans.iter().map(|s| s.text.as_str()).collect()
}

fn flatten(blocks: &[Block]) -> String {
    blocks
        .iter()
        .map(|block| match block {
            Block::Paragraph(spans) | Block::Heading { spans, .. } => text_of(spans),
            Block::List(list) => list
                .items
                .iter()
                .map(|item| flatten(&item.blocks))
                .collect::<Vec<_>>()
                .join("|"),
            Block::Quote(blocks) => flatten(blocks),
            Block::Code { text, .. } => text.clone(),
            _ => String::new(),
        })
        .collect::<Vec<_>>()
        .join("\n")
}

#[test]
fn headings_and_paragraphs() {
    let doc = parse("# Title\n\nHello *world*.\n");
    assert_eq!(doc.blocks.len(), 2);
    let Block::Heading { level, spans } = &doc.blocks[0] else {
        panic!("expected a heading, got {:?}", doc.blocks[0]);
    };
    assert_eq!(*level, 1);
    assert_eq!(text_of(spans), "Title");

    let Block::Paragraph(spans) = &doc.blocks[1] else {
        panic!("expected a paragraph");
    };
    assert_eq!(text_of(spans), "Hello world.");
    assert!(spans.iter().any(|s| s.style.italic && s.text == "world"));
}

#[test]
fn wikilinks_become_note_links() {
    let doc = parse("See [[Some Note]] and <https://example.com>.");
    let Block::Paragraph(spans) = &doc.blocks[0] else {
        panic!("expected a paragraph");
    };
    assert!(spans
        .iter()
        .any(|s| s.link == Some(Link::Note("Some Note".into()))));
    assert!(spans
        .iter()
        .any(|s| matches!(&s.link, Some(Link::Url(u)) if u.contains("example.com"))));
}

#[test]
fn tags_are_marked_but_numbers_are_not() {
    let doc = parse("A #project/alpha and issue #42 here.");
    let Block::Paragraph(spans) = &doc.blocks[0] else {
        panic!("expected a paragraph");
    };
    assert!(spans
        .iter()
        .any(|s| s.style.tag && s.text == "#project/alpha"));
    assert!(!spans.iter().any(|s| s.style.tag && s.text.contains("42")));
    assert_eq!(text_of(spans), "A #project/alpha and issue #42 here.");
}

#[test]
fn nested_lists_and_tasks() {
    let doc = parse("- [ ] todo\n- [x] done\n  - nested\n");
    let Block::List(list) = &doc.blocks[0] else {
        panic!("expected a list, got {:?}", doc.blocks[0]);
    };
    assert_eq!(list.items.len(), 2);
    assert_eq!(list.items[0].task, Some(false));
    assert_eq!(list.items[1].task, Some(true));
    assert!(list.items[1]
        .blocks
        .iter()
        .any(|b| matches!(b, Block::List(_))));
}

#[test]
fn tight_list_items_keep_their_text() {
    let doc = parse("- alpha\n- beta\n  - nested\n\n## After\n");
    let Block::List(list) = &doc.blocks[0] else {
        panic!("expected a list, got {:?}", doc.blocks[0]);
    };
    assert_eq!(flatten(&list.items[0].blocks), "alpha");
    assert_eq!(flatten(&list.items[1].blocks), "beta\nnested");
    // The heading after the list must not have absorbed the item text.
    assert!(
        matches!(&doc.blocks[1], Block::Heading { spans, .. } if text_of(spans) == "After")
    );
}

#[test]
fn tight_task_items_keep_their_text() {
    let doc = parse("- [x] done thing\n- [ ] todo thing\n");
    let Block::List(list) = &doc.blocks[0] else {
        panic!("expected a list");
    };
    assert_eq!(list.items[0].task, Some(true));
    assert_eq!(flatten(&list.items[0].blocks), "done thing");
    assert_eq!(flatten(&list.items[1].blocks), "todo thing");
}

#[test]
fn a_rule_does_not_swallow_the_text_before_it() {
    let doc = parse("- item\n\n---\n\ntail\n");
    let rule = doc
        .blocks
        .iter()
        .position(|b| matches!(b, Block::Rule))
        .expect("a rule");
    assert!(matches!(&doc.blocks[0], Block::List(_)));
    assert!(matches!(&doc.blocks[rule + 1], Block::Paragraph(s) if text_of(s) == "tail"));
}

#[test]
fn front_matter_is_kept_separate() {
    let doc = parse("---\ntags: [a, b]\n---\n\nBody\n");
    assert!(matches!(&doc.blocks[0], Block::Meta(m) if m.contains("tags")));
    assert!(matches!(&doc.blocks[1], Block::Paragraph(_)));
}

#[test]
fn tables_keep_header_and_rows() {
    let doc = parse("| a | b |\n|---|---|\n| 1 | 2 |\n");
    let Block::Table(table) = &doc.blocks[0] else {
        panic!("expected a table, got {:?}", doc.blocks[0]);
    };
    assert_eq!(table.header.len(), 2);
    assert_eq!(table.rows.len(), 1);
    assert_eq!(text_of(&table.rows[0][1]), "2");
}

#[test]
fn fenced_code_keeps_language_and_text() {
    let doc = parse("```rust\nfn main() {}\n```\n");
    let Block::Code { lang, text } = &doc.blocks[0] else {
        panic!("expected code");
    };
    assert_eq!(lang.as_deref(), Some("rust"));
    assert_eq!(text, "fn main() {}");
}

#[test]
fn unterminated_input_does_not_panic() {
    let _ = parse("> quote\n\n- item\n  - deeper");
    let _ = parse("```\nunclosed");
    let _ = parse("| a |\n|---|");
}

#[test]
fn empty_input_gives_no_blocks() {
    assert!(parse("").blocks.is_empty());
}

#[test]
fn bold_and_strike_are_marked() {
    let doc = parse("**bold** and ~~gone~~");
    let Block::Paragraph(spans) = &doc.blocks[0] else {
        panic!("expected a paragraph");
    };
    assert!(spans.iter().any(|s| s.style.bold && s.text == "bold"));
    assert!(spans.iter().any(|s| s.style.strike && s.text == "gone"));
}

#[test]
fn inline_code_is_marked() {
    let doc = parse("call `f()` now");
    let Block::Paragraph(spans) = &doc.blocks[0] else {
        panic!("expected a paragraph");
    };
    assert!(spans.iter().any(|s| s.style.code && s.text == "f()"));
    assert_eq!(text_of(spans), "call f() now");
}

#[test]
fn quotes_hold_their_blocks() {
    let doc = parse("> quoted text\n");
    let Block::Quote(inner) = &doc.blocks[0] else {
        panic!("expected a quote");
    };
    assert_eq!(flatten(inner), "quoted text");
}

#[test]
fn ordered_lists_keep_their_start() {
    let doc = parse("3. three\n4. four\n");
    let Block::List(list) = &doc.blocks[0] else {
        panic!("expected a list");
    };
    assert_eq!(list.start, Some(3));
    assert_eq!(list.items.len(), 2);
}

#[test]
fn plain_text_becomes_one_code_block() {
    let doc = as_code(Some("rs".to_owned()), "fn main() {}".to_owned());
    assert_eq!(doc.blocks.len(), 1);
    let Block::Code { lang, text } = &doc.blocks[0] else {
        panic!("expected code");
    };
    assert_eq!(lang.as_deref(), Some("rs"));
    assert_eq!(text, "fn main() {}");
}

#[test]
fn clicking_a_link_asks_for_the_right_thing() {
    match Action::for_link(&Link::Note("Some Note".to_owned())) {
        Action::OpenNote(name) => assert_eq!(name, "Some Note"),
        Action::OpenUrl(_) => panic!("expected a note"),
    }
    match Action::for_link(&Link::Url("https://example.com".to_owned())) {
        Action::OpenUrl(url) => assert_eq!(url, "https://example.com"),
        Action::OpenNote(_) => panic!("expected a url"),
    }
}

fn start(tag: TagKind, extra: Extra) -> Event {
    Event { shape: Shape::Start, text: None, tag: Some(tag), extra }
}

#[test]
fn containers_left_open_are_unwound_into_the_document() {
    let mut b = Builder::new();
    b.event(&start(TagKind::List, Extra::List(None)));
    b.event(&start(TagKind::Item, Extra::Plain));
    b.event(&Event { shape: Shape::Text, text: Some("x".to_owned()), tag: None, extra: Extra::Plain });
    let doc = b.finish();
    assert_eq!(doc.blocks.len(), 1);
    match &doc.blocks[0] {
        Block::List(list) => {
            assert_eq!(list.start, None);
            assert_eq!(list.items.len(), 1);
            assert_eq!(list.items[0].task, None);
            assert_eq!(flatten(&list.items[0].blocks), "x");
            assert!(matches!(&list.items[0].blocks[0], Block::Paragraph(spans) if spans.len() == 1 && spans[0].link.is_none()));
        }
        other => panic!("expected the open list, got {other:?}"),
    }
}

#[test]
fn an_open_quote_is_unwound_too() {
    let mut b = Builder::new();
    b.event(&start(TagKind::BlockQuote, Extra::Plain));
    b.event(&start(TagKind::Paragraph, Extra::Plain));
    b.event(&Event { shape: Shape::Text, text: Some("q".to_owned()), tag: None, extra: Extra::Plain });
    let doc = b.finish();
    assert_eq!(flatten(&doc.blocks), "q");
}
