//! The parser's event stream in plain form.
//!
//! Each event is described by its shape (text, break, rule, start or end of a
//! tag, ...), the text it carries, the tag a start or end event concerns, and
//! the extra details of a list or link start.

use vstd::prelude::*;

use super::cmark::{md_block_tags, md_extras, md_inline_tags, md_shapes, md_texts};

verus! {

/// The tag a start or end event concerns.
#[derive(Debug, Clone, Copy, PartialEq, Eq, Structural)]
pub enum TagKind {
    Paragraph,
    Heading(u8),
    BlockQuote,
    CodeBlock,
    HtmlBlock,
    List,
    Item,
    FootnoteDefinition,
    DefinitionList,
    DefinitionListTitle,
    DefinitionListDefinition,
    Table,
    TableHead,
    TableRow,
    TableCell,
    Emphasis,
    Strong,
    Strikethrough,
    Superscript,
    Subscript,
    Link,
    Image,
    MetadataBlock,
}

/// How a link was written.
#[derive(Debug, Clone, Copy, PartialEq, Eq, Structural)]
pub enum LinkType {
    Inline,
    Reference,
    ReferenceUnknown,
    Collapsed,
    CollapsedUnknown,
    Shortcut,
    ShortcutUnknown,
    Autolink,
    Email,
    WikiLink(bool),
}

/// The shape of one event.
#[derive(Debug, Clone, Copy, PartialEq, Eq, Structural)]
pub enum Shape {
    Start,
    End,
    Text,
    Code,
    InlineMath,
    DisplayMath,
    Html,
    InlineHtml,
    FootnoteReference,
    SoftBreak,
    HardBreak,
    Rule,
    TaskListMarker(bool),
}

/// Details of a list or link start that neither its tag nor its text give.
#[derive(Debug, Clone, Copy, PartialEq, Eq, Structural)]
pub enum Extra {
    Plain,
    /// A list, ordered from `Some(n)`.
    List(Option<u64>),
    Link(LinkType),
}

/// One event of the stream.
#[derive(Debug)]
pub struct Event {
    pub shape: Shape,
    pub text: Option<String>,
    pub tag: Option<TagKind>,
    pub extra: Extra,
}

pub struct EventModel {
    pub shape: Shape,
    pub text: Option<Seq<char>>,
    pub tag: Option<TagKind>,
    pub extra: Extra,
}

pub open spec fn opt_chars(t: Option<String>) -> Option<Seq<char>> {
    match t {
        Some(s) => Some(s@),
        None => None,
    }
}

impl View for Event {
    type V = EventModel;

    open spec fn view(&self) -> EventModel {
        EventModel { shape: self.shape, text: opt_chars(self.text), tag: self.tag, extra: self.extra }
    }
}

/// Tags that structure blocks, as opposed to tables and inline marks.
pub open spec fn is_block_kind(k: TagKind) -> bool {
    match k {
        TagKind::Paragraph | TagKind::Heading(_) | TagKind::BlockQuote | TagKind::CodeBlock
        | TagKind::HtmlBlock | TagKind::List | TagKind::Item | TagKind::FootnoteDefinition
        | TagKind::DefinitionList | TagKind::DefinitionListTitle
        | TagKind::DefinitionListDefinition | TagKind::MetadataBlock => true,
        _ => false,
    }
}

/// The parser options Faust reads notes with: tables, footnotes,
/// strikethrough, task lists, YAML front matter and wikilinks.
pub const MARKDOWN_OPTIONS: u32 = 32926;

/// The events the Markdown parser yields for `text` under `options`.
pub uninterp spec fn markdown_events(text: Seq<char>, options: u32) -> Seq<EventModel>;

pub open spec fn shapes_of(events: Seq<EventModel>) -> Seq<Shape> {
    events.map_values(|e: EventModel| e.shape)
}

pub open spec fn texts_of(events: Seq<EventModel>) -> Seq<Option<Seq<char>>> {
    events.map_values(|e: EventModel| e.text)
}

pub open spec fn block_tags(events: Seq<EventModel>) -> Seq<Option<TagKind>> {
    events.map_values(
        |e: EventModel|
            if e.tag is Some && is_block_kind(e.tag->0) {
                e.tag
            } else {
                None
            },
    )
}

pub open spec fn inline_tags(events: Seq<EventModel>) -> Seq<Option<TagKind>> {
    events.map_values(
        |e: EventModel|
            if e.tag is Some && !is_block_kind(e.tag->0) {
                e.tag
            } else {
                None
            },
    )
}

pub open spec fn extras_of(events: Seq<EventModel>) -> Seq<Extra> {
    events.map_values(|e: EventModel| e.extra)
}

pub open spec fn events_view(events: Seq<Event>) -> Seq<EventModel> {
    events.map_values(|e: Event| e@)
}

/// The event stream of `text`, with each event's facets brought together.
pub fn markdown_stream(text: &str) -> (r: Vec<Event>)
    ensures
        events_view(r@) == markdown_events(text@, MARKDOWN_OPTIONS),
{
    let ghost events = markdown_events(text@, MARKDOWN_OPTIONS);
    let mut shapes = md_shapes(text, MARKDOWN_OPTIONS);
    let mut texts = md_texts(text, MARKDOWN_OPTIONS);
    let mut blocks = md_block_tags(text, MARKDOWN_OPTIONS);
    let mut inlines = md_inline_tags(text, MARKDOWN_OPTIONS);
    let mut extras = md_extras(text, MARKDOWN_OPTIONS);
    let n = shapes.len();
    proof {
        assert(shapes_of(events).len() == events.len());
        assert(texts@.map_values(|t: Option<String>| opt_chars(t)).len() == texts@.len());
        assert forall|k: int| 0 <= k < n implies opt_chars(#[trigger] texts@[k]) == events[k].text by {
            assert(texts@.map_values(|t: Option<String>| opt_chars(t))[k] == texts_of(events)[k]);
        }
        assert forall|k: int| 0 <= k < n implies #[trigger] shapes@[k] == events[k].shape by {
            assert(shapes_of(events)[k] == events[k].shape);
        }
        assert forall|k: int| 0 <= k < n implies #[trigger] extras@[k] == events[k].extra by {
            assert(extras_of(events)[k] == events[k].extra);
        }
    }
    // Taken from the back, so that each step is constant time.
    let mut reversed: Vec<Event> = Vec::new();
    let mut i = n;
    while i > 0
        invariant
            i <= n == events.len(),
            shapes@.len() == i,
            texts@.len() == i,
            blocks@.len() == i,
            inlines@.len() == i,
            extras@.len() == i,
            forall|k: int| 0 <= k < i ==> #[trigger] shapes@[k] == events[k].shape,
            forall|k: int| 0 <= k < i ==> opt_chars(#[trigger] texts@[k]) == events[k].text,
            forall|k: int| 0 <= k < i ==> #[trigger] blocks@[k] == block_tags(events)[k],
            forall|k: int| 0 <= k < i ==> #[trigger] inlines@[k] == inline_tags(events)[k],
            forall|k: int| 0 <= k < i ==> #[trigger] extras@[k] == events[k].extra,
            reversed@.len() == n - i,
            forall|k: int| 0 <= k < n - i ==> #[trigger] reversed@[k]@ == events[n - 1 - k],
        decreases i,
    {
        let ghost k = i - 1;
        proof {
            assert(texts@.map_values(|t: Option<String>| opt_chars(t))[k] == texts_of(events)[k]);
        }
        let shape = shapes.pop().unwrap();
        let text = texts.pop().unwrap();
        let block = blocks.pop().unwrap();
        let inline = inlines.pop().unwrap();
        let extra = extras.pop().unwrap();
        let tag = if block.is_some() {
            block
        } else {
            inline
        };
        proof {
            assert(block_tags(events)[k] == (if events[k].tag is Some && is_block_kind(
                events[k].tag->0,
            ) {
                events[k].tag
            } else {
                None
            }));
            assert(inline_tags(events)[k] == (if events[k].tag is Some && !is_block_kind(
                events[k].tag->0,
            ) {
                events[k].tag
            } else {
                None
            }));
        }
        reversed.push(Event { shape, text, tag, extra });
        i -= 1;
    }
    let mut out: Vec<Event> = Vec::new();
    while reversed.len() > 0
        invariant
            reversed@.len() + out@.len() == n == events.len(),
            forall|k: int| 0 <= k < reversed@.len() ==> #[trigger] reversed@[k]@ == events[n - 1 - k],
            forall|k: int| 0 <= k < out@.len() ==> #[trigger] out@[k]@ == events[k],
        decreases reversed@.len(),
    {
        let e = reversed.pop().unwrap();
        out.push(e);
    }
    assert(events_view(out@) =~= events);
    out
}

} // verus!
