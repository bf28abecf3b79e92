//! Markdown parsing into a small display tree.
//!
//! A note is parsed once per change and the resulting tree is rendered every
//! frame. The tree is deliberately shallow and owns its text, so rendering
//! never touches the source buffer.

use vstd::prelude::*;

use self::builder::{document_of, run_m, empty_model, Builder};
use self::events::{events_view, markdown_events, markdown_stream, MARKDOWN_OPTIONS};

pub mod cmark;
pub mod events;
pub mod builder;


verus! {

/// A parsed note.
#[derive(Debug)]
pub struct Document {
    pub blocks: Vec<Block>,
}

#[derive(Debug)]
pub enum Block {
    Heading { level: u8, spans: Vec<Span> },
    Paragraph(Vec<Span>),
    Code { lang: Option<String>, text: String },
    Quote(Vec<Block>),
    List(List),
    Table(Table),
    /// A YAML front-matter block, kept verbatim.
    Meta(String),
    Rule,
}

#[derive(Debug)]
pub struct List {
    /// `Some(n)` for an ordered list starting at `n`.
    pub start: Option<u64>,
    pub items: Vec<Item>,
}

#[derive(Debug)]
pub struct Item {
    /// `Some(done)` when the item carries a `- [ ]` marker.
    pub task: Option<bool>,
    pub blocks: Vec<Block>,
}

#[derive(Debug, Clone)]
pub struct Table {
    pub header: Vec<Vec<Span>>,
    pub rows: Vec<Vec<Vec<Span>>>,
}

/// A run of text sharing one set of inline marks.
#[derive(Debug, Clone)]
pub struct Span {
    pub text: String,
    pub style: Style,
    pub link: Option<Link>,
}

#[derive(Debug, Clone, Copy, PartialEq, Eq, Structural)]
pub struct Style {
    pub bold: bool,
    pub italic: bool,
    pub code: bool,
    pub strike: bool,
    /// An Obsidian `#tag`.
    pub tag: bool,
}

#[derive(Debug, Clone, PartialEq, Eq)]
pub enum Link {
    /// An ordinary URL, opened with the desktop handler.
    Url(String),
    /// An Obsidian `[[wikilink]]`, resolved inside the vault.
    Note(String),
}

// ------------------------------------------------------------------ models

/// A link as the contracts see it.
pub enum LinkModel {
    Url(Seq<char>),
    Note(Seq<char>),
}

/// A span as the contracts see it.
pub struct SpanModel {
    pub text: Seq<char>,
    pub style: Style,
    pub link: Option<LinkModel>,
}

/// A block as the contracts see it.
pub enum BlockModel {
    Heading { level: u8, spans: Seq<SpanModel> },
    Paragraph(Seq<SpanModel>),
    Code { lang: Option<Seq<char>>, text: Seq<char> },
    Quote(Seq<BlockModel>),
    List { start: Option<u64>, items: Seq<ItemModel> },
    Table { header: Seq<Seq<SpanModel>>, rows: Seq<Seq<Seq<SpanModel>>> },
    Meta(Seq<char>),
    Rule,
}

/// A list item as the contracts see it.
pub struct ItemModel {
    pub task: Option<bool>,
    pub blocks: Seq<BlockModel>,
}

pub open spec fn opt_str_view(s: Option<String>) -> Option<Seq<char>> {
    match s {
        Some(t) => Some(t@),
        None => None,
    }
}

impl View for Link {
    type V = LinkModel;

    open spec fn view(&self) -> LinkModel {
        match self {
            Link::Url(u) => LinkModel::Url(u@),
            Link::Note(n) => LinkModel::Note(n@),
        }
    }
}

pub open spec fn opt_link_view(l: Option<Link>) -> Option<LinkModel> {
    match l {
        Some(k) => Some(k@),
        None => None,
    }
}

impl View for Span {
    type V = SpanModel;

    open spec fn view(&self) -> SpanModel {
        SpanModel { text: self.text@, style: self.style, link: opt_link_view(self.link) }
    }
}

pub open spec fn spans_view(s: Seq<Span>) -> Seq<SpanModel> {
    s.map_values(|x: Span| x@)
}

pub open spec fn row_view(r: Seq<Vec<Span>>) -> Seq<Seq<SpanModel>> {
    r.map_values(|c: Vec<Span>| spans_view(c@))
}

pub open spec fn rows_view(r: Seq<Vec<Vec<Span>>>) -> Seq<Seq<Seq<SpanModel>>> {
    r.map_values(|c: Vec<Vec<Span>>| row_view(c@))
}

pub open spec fn block_view(b: Block) -> BlockModel
    decreases b,
{
    match b {
        Block::Heading { level, spans } => BlockModel::Heading { level, spans: spans_view(spans@) },
        Block::Paragraph(spans) => BlockModel::Paragraph(spans_view(spans@)),
        Block::Code { lang, text } => BlockModel::Code { lang: opt_str_view(lang), text: text@ },
        Block::Quote(blocks) => BlockModel::Quote(blocks_view(blocks@)),
        Block::List(list) => BlockModel::List { start: list.start, items: items_view(list.items@) },
        Block::Table(t) => BlockModel::Table {
            header: row_view(t.header@),
            rows: rows_view(t.rows@),
        },
        Block::Meta(m) => BlockModel::Meta(m@),
        Block::Rule => BlockModel::Rule,
    }
}

pub open spec fn blocks_view(s: Seq<Block>) -> Seq<BlockModel>
    decreases s,
{
    if s.len() == 0 {
        Seq::empty()
    } else {
        blocks_view(s.drop_last()).push(block_view(s.last()))
    }
}

pub open spec fn items_view(s: Seq<Item>) -> Seq<ItemModel>
    decreases s,
{
    if s.len() == 0 {
        Seq::empty()
    } else {
        items_view(s.drop_last()).push(
            ItemModel { task: s.last().task, blocks: blocks_view(s.last().blocks@) },
        )
    }
}

pub proof fn lemma_blocks_view_push(s: Seq<Block>, b: Block)
    ensures
        blocks_view(s.push(b)) == blocks_view(s).push(block_view(b)),
{
    assert(s.push(b).drop_last() =~= s);
}

pub proof fn lemma_items_view_push(s: Seq<Item>, i: Item)
    ensures
        items_view(s.push(i)) == items_view(s).push(
            ItemModel { task: i.task, blocks: blocks_view(i.blocks@) },
        ),
{
    assert(s.push(i).drop_last() =~= s);
}

impl View for Document {
    type V = Seq<BlockModel>;

    open spec fn view(&self) -> Seq<BlockModel> {
        blocks_view(self.blocks@)
    }
}

/// The display tree the Markdown text `text` parses to.
pub open spec fn parsed(text: Seq<char>) -> Seq<BlockModel> {
    document_of(markdown_events(text, MARKDOWN_OPTIONS))
}

/// Parses Markdown into a display tree.
pub fn parse(text: &str) -> (r: Document)
    ensures
        r@ == parsed(text@),
{
    let events = markdown_stream(text);
    let ghost evs = events_view(events@);
    let mut builder = Builder::new();
    let mut i: usize = 0;
    assert(evs.take(0) =~= Seq::<events::EventModel>::empty());
    while i < events.len()
        invariant
            i <= events.len(),
            evs == events_view(events@),
            builder@ == run_m(empty_model(), evs.take(i as int)),
        decreases events.len() - i,
    {
        builder.event(&events[i]);
        assert(evs.take(i + 1).drop_last() =~= evs.take(i as int));
        i += 1;
    }
    assert(evs.take(i as int) =~= evs);
    builder.finish()
}

/// Wraps arbitrary text as a single code block, for files that are not
/// rendered as Markdown (source files, plain text, anything undecodable).
pub fn as_code(lang: Option<String>, text: String) -> (r: Document)
    ensures
        r@ == seq![BlockModel::Code { lang: opt_str_view(lang), text: text@ }],
{
    let ghost expected = BlockModel::Code { lang: opt_str_view(lang), text: text@ };
    let mut blocks: Vec<Block> = Vec::new();
    let block = Block::Code { lang, text };
    proof {
        lemma_blocks_view_push(blocks@, block);
    }
    blocks.push(block);
    assert(blocks@ =~= Seq::<Block>::empty().push(block));
    let r = Document { blocks };
    assert(r@ =~= seq![expected]);
    r
}

/// An empty note.
pub fn empty_document() -> (r: Document)
    ensures
        r@ == Seq::<BlockModel>::empty(),
{
    Document { blocks: Vec::new() }
}

} // verus!
