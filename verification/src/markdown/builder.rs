//! Folding the parser's events into the display tree.
//!
//! The builder keeps a stack of open containers (the document root, block
//! quotes and footnotes, lists, list items), the inline spans waiting for a
//! block to claim them, and the state of any open table, code block or front
//! matter. Each event moves it from one state to the next; the contracts say
//! which, through the model functions below.

use vstd::prelude::*;

use super::{
    block_view, blocks_view, items_view, lemma_blocks_view_push, lemma_items_view_push,
    opt_link_view, row_view, rows_view, spans_view, Block, BlockModel, Item,
    ItemModel, Link, LinkModel, List, Span, SpanModel, Style, Table,
};
use super::events::{EventModel, Extra, LinkType, Shape, TagKind};
use super::events::{opt_chars, Event};
use super::{opt_str_view, Document};
use crate::text::{
    alphabetic, alphanumeric, chars_of, is_alphabetic, is_alphanumeric, is_space, is_whitespace,
    string_of_range, trim_end, trim_end_index, trim_range, trim_start,
};

verus! {

/// Where completed inline spans should be delivered.
#[derive(Debug, Clone, Copy, PartialEq, Eq, Structural)]
pub enum Inline {
    Paragraph,
    Heading(u8),
    TableCell,
}

pub enum FrameModel {
    Blocks(Seq<BlockModel>),
    List { start: Option<u64>, items: Seq<ItemModel> },
    Item { task: Option<bool>, blocks: Seq<BlockModel> },
}

pub struct TableModel {
    pub header: Seq<Seq<SpanModel>>,
    pub rows: Seq<Seq<Seq<SpanModel>>>,
    pub row: Seq<Seq<SpanModel>>,
    pub in_header: bool,
}

pub struct CodeModel {
    pub lang: Option<Seq<char>>,
    pub text: Seq<char>,
}

/// The builder's state as the contracts see it.
pub struct BuilderModel {
    pub stack: Seq<FrameModel>,
    pub spans: Seq<SpanModel>,
    pub target: Option<Inline>,
    pub style: Style,
    pub link: Option<LinkModel>,
    pub bold: u32,
    pub italic: u32,
    pub strike: u32,
    pub table: Option<TableModel>,
    pub code: Option<CodeModel>,
    pub meta: Option<Seq<char>>,
}

pub open spec fn empty_model() -> BuilderModel {
    BuilderModel {
        stack: Seq::empty(),
        spans: Seq::empty(),
        target: None,
        style: Style { bold: false, italic: false, code: false, strike: false, tag: false },
        link: None,
        bold: 0,
        italic: 0,
        strike: 0,
        table: None,
        code: None,
        meta: None,
    }
}

// ------------------------------------------------------------- containers

/// The innermost open container that holds blocks.
pub open spec fn innermost(stack: Seq<FrameModel>) -> Option<int>
    decreases stack.len(),
{
    if stack.len() == 0 {
        None
    } else if stack.last() is List {
        innermost(stack.drop_last())
    } else {
        Some(stack.len() - 1)
    }
}

pub open spec fn add_block(f: FrameModel, b: BlockModel) -> FrameModel {
    match f {
        FrameModel::Blocks(v) => FrameModel::Blocks(v.push(b)),
        FrameModel::Item { task, blocks } => FrameModel::Item { task, blocks: blocks.push(b) },
        FrameModel::List { start, items } => FrameModel::List { start, items },
    }
}

/// Appends a block to the innermost container, opening a root if none is open.
pub open spec fn push_block_m(m: BuilderModel, b: BlockModel) -> BuilderModel {
    match innermost(m.stack) {
        None => BuilderModel { stack: m.stack.push(FrameModel::Blocks(seq![b])), ..m },
        Some(i) => BuilderModel { stack: m.stack.update(i, add_block(m.stack[i], b)), ..m },
    }
}

/// Pops the innermost container and folds it into its parent.
pub open spec fn close_frame_m(m: BuilderModel) -> BuilderModel {
    if m.stack.len() == 0 {
        m
    } else {
        let rest = BuilderModel { stack: m.stack.drop_last(), ..m };
        match m.stack.last() {
            FrameModel::Blocks(v) => push_block_m(rest, BlockModel::Quote(v)),
            FrameModel::List { start, items } => push_block_m(
                rest,
                BlockModel::List { start, items },
            ),
            FrameModel::Item { task, blocks } => {
                if rest.stack.len() > 0 && rest.stack.last() is List {
                    let parent = rest.stack.last();
                    BuilderModel {
                        stack: rest.stack.update(
                            rest.stack.len() - 1,
                            FrameModel::List {
                                start: parent->start,
                                items: parent->items.push(ItemModel { task, blocks }),
                            },
                        ),
                        ..rest
                    }
                } else {
                    rest
                }
            },
        }
    }
}

// ------------------------------------------------------------------ spans

/// Spans with empty text dropped.
pub open spec fn nonempty_spans(s: Seq<SpanModel>) -> Seq<SpanModel>
    decreases s.len(),
{
    if s.len() == 0 {
        s
    } else if s.last().text.len() > 0 {
        nonempty_spans(s.drop_last()).push(s.last())
    } else {
        nonempty_spans(s.drop_last())
    }
}

/// The pending spans as a block receives them: the last one loses its
/// trailing whitespace, and empty spans are dropped.
pub open spec fn finished_spans(s: Seq<SpanModel>) -> Seq<SpanModel> {
    if s.len() == 0 {
        s
    } else {
        nonempty_spans(s.update(s.len() - 1, SpanModel { text: trim_end(s.last().text), ..s.last() }))
    }
}

/// Emits inline text that no explicit paragraph will claim.
pub open spec fn flush_inline_m(m: BuilderModel) -> BuilderModel {
    if m.spans.len() == 0 || m.target == Some(Inline::TableCell) {
        m
    } else {
        let spans = finished_spans(m.spans);
        let cleared = BuilderModel { spans: Seq::empty(), ..m };
        if spans.len() == 0 {
            cleared
        } else {
            let block = match m.target {
                Some(Inline::Heading(level)) => BlockModel::Heading { level, spans },
                _ => BlockModel::Paragraph(spans),
            };
            BuilderModel { target: None, ..push_block_m(cleared, block) }
        }
    }
}

/// Text taken literally: into an open code block or front matter, or onto the
/// pending spans, merged into the last one when its marks match.
pub open spec fn raw_m(m: BuilderModel, t: Seq<char>) -> BuilderModel {
    if t.len() == 0 {
        m
    } else if m.code is Some {
        BuilderModel {
            code: Some(CodeModel { text: m.code->0.text + t, ..m.code->0 }),
            ..m
        }
    } else if m.meta is Some {
        BuilderModel { meta: Some(m.meta->0 + t), ..m }
    } else {
        let m1 = if m.target is None {
            BuilderModel { target: Some(Inline::Paragraph), ..m }
        } else {
            m
        };
        if m1.spans.len() > 0 && m1.spans.last().style == m1.style && m1.spans.last().link
            == m1.link {
            let last = m1.spans.last();
            BuilderModel {
                spans: m1.spans.update(
                    m1.spans.len() - 1,
                    SpanModel { text: last.text + t, ..last },
                ),
                ..m1
            }
        } else {
            BuilderModel {
                spans: m1.spans.push(SpanModel { text: t, style: m1.style, link: m1.link }),
                ..m1
            }
        }
    }
}

/// `raw_m` under an extra mark that is dropped again afterwards.
pub open spec fn raw_marked_m(m: BuilderModel, t: Seq<char>, code: bool, tag: bool) -> BuilderModel {
    let marked = BuilderModel {
        style: Style { code: m.style.code || code, tag: m.style.tag || tag, ..m.style },
        ..m
    };
    BuilderModel { style: m.style, ..raw_m(marked, t) }
}

// ------------------------------------------------------------------- tags

/// Characters allowed in an Obsidian `#tag`; the first must be alphanumeric.
pub open spec fn tag_char(c: char, first: bool) -> bool {
    alphanumeric(c) || (!first && (c == '_' || c == '-' || c == '/'))
}

/// Length of the run of tag characters starting at `i`, measured from 0.
pub open spec fn tag_run(s: Seq<char>, i: nat) -> nat
    decreases s.len() - i,
{
    if i < s.len() && tag_char(s[i as int], i == 0) {
        tag_run(s, i + 1)
    } else {
        i
    }
}

/// Length of the `#tag` body at the start of `s`, or 0 if there is none:
/// `#1` is a number, not a tag, so a tag needs at least one letter.
pub open spec fn tag_len(s: Seq<char>) -> nat {
    let n = tag_run(s, 0);
    if exists|k: int| 0 <= k < n && alphabetic(#[trigger] s[k]) {
        n
    } else {
        0
    }
}

/// Index of the first `#` in `s`.
pub open spec fn first_hash(s: Seq<char>) -> Option<int>
    decreases s.len(),
{
    if s.len() == 0 {
        None
    } else if s[0] == '#' {
        Some(0)
    } else {
        match first_hash(s.drop_first()) {
            Some(k) => Some(k + 1),
            None => None,
        }
    }
}

pub proof fn lemma_first_hash(s: Seq<char>)
    ensures
        match first_hash(s) {
            Some(h) => 0 <= h < s.len() && s[h] == '#' && forall|k: int| 0 <= k < h ==> s[k] != '#',
            None => forall|k: int| 0 <= k < s.len() ==> s[k] != '#',
        },
    decreases s.len(),
{
    if s.len() > 0 && s[0] != '#' {
        lemma_first_hash(s.drop_first());
        match first_hash(s.drop_first()) {
            Some(h) => {
                assert forall|k: int| 0 <= k < h + 1 implies s[k] != '#' by {
                    if k > 0 {
                        assert(s[k] == s.drop_first()[k - 1]);
                    }
                }
            },
            None => {
                assert forall|k: int| 0 <= k < s.len() implies s[k] != '#' by {
                    if k > 0 {
                        assert(s[k] == s.drop_first()[k - 1]);
                    }
                }
            },
        }
    }
}

/// The first `#` at or after `h`, when none comes before it.
pub proof fn lemma_first_hash_exact(s: Seq<char>, h: int)
    requires
        0 <= h <= s.len(),
        forall|k: int| 0 <= k < h ==> s[k] != '#',
        h < s.len() ==> s[h] == '#',
    ensures
        first_hash(s) == (if h < s.len() {
            Some(h)
        } else {
            None::<int>
        }),
{
    lemma_first_hash(s);
}

pub proof fn lemma_tag_run_bound(s: Seq<char>, i: nat)
    requires
        i <= s.len(),
    ensures
        i <= tag_run(s, i) <= s.len(),
    decreases s.len() - i,
{
    if i < s.len() && tag_char(s[i as int], i == 0) {
        lemma_tag_run_bound(s, i + 1);
    }
}

pub proof fn lemma_tag_len_bound(s: Seq<char>)
    ensures
        tag_len(s) <= s.len(),
{
    lemma_tag_run_bound(s, 0);
}

/// Source text scanned for Obsidian tags: a `#` that follows whitespace (or
/// starts a run at a boundary) and is followed by a tag body is marked.
pub open spec fn scan_m(m: BuilderModel, rest: Seq<char>, at_boundary: bool) -> BuilderModel
    decreases rest.len(),
{
    match first_hash(rest) {
        None => raw_m(m, rest),
        Some(h) => {
            let boundary = if h == 0 {
                at_boundary
            } else {
                is_space(rest[h - 1])
            };
            let body = rest.skip(h + 1);
            let len = tag_len(body);
            proof {
                lemma_first_hash(rest);
                lemma_tag_len_bound(body);
            }
            if !boundary || len == 0 {
                scan_m(raw_m(m, rest.take(h + 1)), body, false)
            } else {
                let before = raw_m(m, rest.take(h));
                let tagged = raw_marked_m(before, rest.subrange(h, h + 1 + len), false, true);
                scan_m(tagged, body.skip(len as int), false)
            }
        },
    }
}

/// Whether the last pending span ends in whitespace, or there is none.
pub open spec fn at_boundary(m: BuilderModel) -> bool {
    m.spans.len() == 0 || (m.spans.last().text.len() > 0 && is_space(
        m.spans.last().text.last(),
    ))
}

/// Text from the source: literal inside code, front matter, inline code and
/// links, scanned for tags everywhere else.
pub open spec fn text_m(m: BuilderModel, t: Seq<char>) -> BuilderModel {
    if m.code is Some {
        BuilderModel {
            code: Some(CodeModel { text: m.code->0.text + t, ..m.code->0 }),
            ..m
        }
    } else if m.meta is Some {
        BuilderModel { meta: Some(m.meta->0 + t), ..m }
    } else if m.style.code || m.link is Some {
        raw_m(m, t)
    } else {
        scan_m(m, t, at_boundary(m))
    }
}

// ------------------------------------------------------------------ events

pub open spec fn sat_inc(x: u32) -> u32 {
    if x < u32::MAX {
        (x + 1) as u32
    } else {
        x
    }
}

pub open spec fn sat_dec(x: u32) -> u32 {
    if x > 0 {
        (x - 1) as u32
    } else {
        0
    }
}

pub open spec fn sync_m(m: BuilderModel) -> BuilderModel {
    BuilderModel {
        style: Style { bold: m.bold > 0, italic: m.italic > 0, strike: m.strike > 0, ..m.style },
        ..m
    }
}

/// Whether a tag begins a new block, and so ends any pending inline run.
pub open spec fn opens_block(k: TagKind) -> bool {
    match k {
        TagKind::Paragraph | TagKind::Heading(_) | TagKind::BlockQuote | TagKind::CodeBlock
        | TagKind::List | TagKind::Item | TagKind::Table | TagKind::MetadataBlock
        | TagKind::FootnoteDefinition | TagKind::HtmlBlock | TagKind::DefinitionList
        | TagKind::DefinitionListTitle | TagKind::DefinitionListDefinition => true,
        _ => false,
    }
}

/// Whether the end of a tag first emits pending inline text.
pub open spec fn end_flushes(k: TagKind) -> bool {
    match k {
        TagKind::Item | TagKind::List | TagKind::BlockQuote | TagKind::FootnoteDefinition
        | TagKind::DefinitionListTitle | TagKind::DefinitionListDefinition => true,
        _ => false,
    }
}

/// Length of the leading run of non-whitespace characters.
pub open spec fn word_len(s: Seq<char>) -> nat
    decreases s.len(),
{
    if s.len() > 0 && !is_space(s[0]) {
        1 + word_len(s.drop_first())
    } else {
        0
    }
}

/// The language of a fenced code block: the first word of its info string.
pub open spec fn lang_of(info: Option<Seq<char>>) -> Option<Seq<char>> {
    match info {
        None => None,
        Some(i) => {
            let t = trim_start(i);
            let w = t.take(word_len(t) as int);
            if w.len() == 0 {
                None
            } else {
                Some(w)
            }
        },
    }
}

pub open spec fn text_or_empty(t: Option<Seq<char>>) -> Seq<char> {
    match t {
        Some(s) => s,
        None => Seq::empty(),
    }
}

pub open spec fn start_m(m: BuilderModel, k: TagKind, text: Option<Seq<char>>, extra: Extra) -> BuilderModel {
    let m0 = if opens_block(k) {
        flush_inline_m(m)
    } else {
        m
    };
    let m1 = match k {
        TagKind::Paragraph => BuilderModel { target: Some(Inline::Paragraph), ..m0 },
        TagKind::Heading(level) => BuilderModel { target: Some(Inline::Heading(level)), ..m0 },
        TagKind::BlockQuote => BuilderModel {
            stack: m0.stack.push(FrameModel::Blocks(Seq::empty())),
            ..m0
        },
        TagKind::CodeBlock => BuilderModel {
            code: Some(CodeModel { lang: lang_of(text), text: Seq::empty() }),
            ..m0
        },
        TagKind::List => BuilderModel {
            stack: m0.stack.push(
                FrameModel::List {
                    start: match extra {
                        Extra::List(n) => n,
                        _ => None,
                    },
                    items: Seq::empty(),
                },
            ),
            ..m0
        },
        TagKind::Item => BuilderModel {
            stack: m0.stack.push(FrameModel::Item { task: None, blocks: Seq::empty() }),
            ..m0
        },
        TagKind::Table => BuilderModel {
            table: Some(
                TableModel {
                    header: Seq::empty(),
                    rows: Seq::empty(),
                    row: Seq::empty(),
                    in_header: false,
                },
            ),
            ..m0
        },
        TagKind::TableHead => match m0.table {
            Some(t) => BuilderModel { table: Some(TableModel { in_header: true, ..t }), ..m0 },
            None => m0,
        },
        TagKind::TableCell => BuilderModel {
            target: Some(Inline::TableCell),
            spans: Seq::empty(),
            ..m0
        },
        TagKind::Emphasis => BuilderModel { italic: sat_inc(m0.italic), ..m0 },
        TagKind::Strong => BuilderModel { bold: sat_inc(m0.bold), ..m0 },
        TagKind::Strikethrough => BuilderModel { strike: sat_inc(m0.strike), ..m0 },
        TagKind::Link => BuilderModel {
            link: Some(
                match extra {
                    Extra::Link(LinkType::WikiLink(_)) => LinkModel::Note(text_or_empty(text)),
                    _ => LinkModel::Url(text_or_empty(text)),
                },
            ),
            ..m0
        },
        TagKind::Image => raw_m(m0, "[image: "@ + text_or_empty(text) + "]"@),
        TagKind::MetadataBlock => BuilderModel { meta: Some(Seq::empty()), ..m0 },
        TagKind::FootnoteDefinition => raw_m(
            BuilderModel { stack: m0.stack.push(FrameModel::Blocks(Seq::empty())), ..m0 },
            "[^"@ + text_or_empty(text) + "]: "@,
        ),
        _ => m0,
    };
    sync_m(m1)
}

/// A paragraph or heading closing: its spans become the block.
pub open spec fn close_inline_m(m: BuilderModel, heading: Option<u8>) -> BuilderModel {
    let spans = finished_spans(m.spans);
    let cleared = BuilderModel { spans: Seq::empty(), ..m };
    let m1 = if spans.len() == 0 {
        cleared
    } else {
        push_block_m(
            cleared,
            match heading {
                Some(level) => BlockModel::Heading { level, spans },
                None => BlockModel::Paragraph(spans),
            },
        )
    };
    BuilderModel { target: None, ..m1 }
}

pub open spec fn end_m(m: BuilderModel, k: TagKind) -> BuilderModel {
    let m0 = if end_flushes(k) {
        flush_inline_m(m)
    } else {
        m
    };
    let m1 = match k {
        TagKind::Paragraph => close_inline_m(m0, None),
        TagKind::Heading(level) => close_inline_m(m0, Some(level)),
        TagKind::BlockQuote | TagKind::FootnoteDefinition | TagKind::List | TagKind::Item =>
            close_frame_m(m0),
        TagKind::CodeBlock => match m0.code {
            Some(c) => push_block_m(
                BuilderModel { code: None, ..m0 },
                BlockModel::Code { lang: c.lang, text: trim_end(c.text) },
            ),
            None => m0,
        },
        TagKind::Table => match m0.table {
            Some(t) => push_block_m(
                BuilderModel { table: None, ..m0 },
                BlockModel::Table { header: t.header, rows: t.rows },
            ),
            None => m0,
        },
        TagKind::TableHead => match m0.table {
            Some(t) => BuilderModel {
                table: Some(TableModel { in_header: false, header: t.row, row: Seq::empty(), ..t }),
                ..m0
            },
            None => m0,
        },
        TagKind::TableRow => match m0.table {
            Some(t) => BuilderModel {
                table: Some(TableModel { rows: t.rows.push(t.row), row: Seq::empty(), ..t }),
                ..m0
            },
            None => m0,
        },
        TagKind::TableCell => {
            let cell = m0.spans;
            let cleared = BuilderModel { spans: Seq::empty(), ..m0 };
            match cleared.table {
                Some(t) => BuilderModel {
                    table: Some(TableModel { row: t.row.push(cell), ..t }),
                    ..cleared
                },
                None => cleared,
            }
        },
        TagKind::Emphasis => BuilderModel { italic: sat_dec(m0.italic), ..m0 },
        TagKind::Strong => BuilderModel { bold: sat_dec(m0.bold), ..m0 },
        TagKind::Strikethrough => BuilderModel { strike: sat_dec(m0.strike), ..m0 },
        TagKind::Link | TagKind::Image => BuilderModel { link: None, ..m0 },
        TagKind::MetadataBlock => match m0.meta {
            Some(text) => {
                let cleared = BuilderModel { meta: None, ..m0 };
                if trim_end(text).len() > 0 {
                    push_block_m(cleared, BlockModel::Meta(trim_end(text)))
                } else {
                    cleared
                }
            },
            None => m0,
        },
        _ => m0,
    };
    sync_m(m1)
}

/// One event applied to the builder.
pub open spec fn event_m(m: BuilderModel, e: EventModel) -> BuilderModel {
    match e.shape {
        Shape::Start => match e.tag {
            Some(k) => start_m(m, k, e.text, e.extra),
            None => m,
        },
        Shape::End => match e.tag {
            Some(k) => end_m(m, k),
            None => m,
        },
        Shape::Text => text_m(m, text_or_empty(e.text)),
        Shape::Code | Shape::InlineMath | Shape::DisplayMath | Shape::InlineHtml => raw_marked_m(
            m,
            text_or_empty(e.text),
            true,
            false,
        ),
        Shape::SoftBreak => raw_m(m, " "@),
        Shape::HardBreak => raw_m(m, "\n"@),
        Shape::Rule => push_block_m(flush_inline_m(m), BlockModel::Rule),
        Shape::TaskListMarker(done) => {
            if m.stack.len() > 0 && m.stack.last() is Item {
                BuilderModel {
                    stack: m.stack.update(
                        m.stack.len() - 1,
                        FrameModel::Item { task: Some(done), blocks: m.stack.last()->blocks },
                    ),
                    ..m
                }
            } else {
                m
            }
        },
        Shape::FootnoteReference => raw_m(m, "[^"@ + text_or_empty(e.text) + "]"@),
        Shape::Html => push_block_m(
            flush_inline_m(m),
            BlockModel::Code { lang: Some("html"@), text: trim_end(text_or_empty(e.text)) },
        ),
    }
}

/// The builder after every event of `events`, in order.
pub open spec fn run_m(m: BuilderModel, events: Seq<EventModel>) -> BuilderModel
    decreases events.len(),
{
    if events.len() == 0 {
        m
    } else {
        event_m(run_m(m, events.drop_last()), events.last())
    }
}

/// Nothing is left open but, at most, a root that holds blocks.
pub open spec fn unwound_m(m: BuilderModel) -> bool {
    m.stack.len() == 0 || (m.stack.len() == 1 && m.stack.last() is Blocks)
}

/// Closes up to `n` containers, as their ends would, until only a root is
/// left. A list left open at the bottom is closed too, which puts it into a
/// new root.
pub open spec fn close_all_m(m: BuilderModel, n: nat) -> BuilderModel
    decreases n,
{
    if n == 0 || unwound_m(m) {
        m
    } else {
        close_all_m(close_frame_m(m), (n - 1) as nat)
    }
}

/// The document a builder holds once the input has ended: pending text is
/// emitted, containers left open are unwound into the document, and the
/// root's blocks remain.
pub open spec fn finish_m(m: BuilderModel) -> Seq<BlockModel> {
    let flushed = flush_inline_m(m);
    let closed = close_all_m(flushed, flushed.stack.len());
    if closed.stack.len() > 0 && closed.stack.last() is Blocks {
        closed.stack.last()->0
    } else {
        Seq::empty()
    }
}

/// The text of a run of spans, read in order.
pub open spec fn spans_text(s: Seq<SpanModel>) -> Seq<char>
    decreases s.len(),
{
    if s.len() == 0 {
        Seq::empty()
    } else {
        spans_text(s.drop_last()) + s.last().text
    }
}

/// A line break inside a paragraph (a soft break) reads as exactly one
/// space: the pending text gains a single space at its end, and no block is
/// closed or opened.
pub proof fn law_soft_break_is_a_space(m: BuilderModel, e: EventModel)
    requires
        e.shape == Shape::SoftBreak,
        m.code is None,
        m.meta is None,
    ensures
        spans_text(event_m(m, e).spans) == spans_text(m.spans) + " "@,
        event_m(m, e).stack == m.stack,
        event_m(m, e).table == m.table,
{
    reveal_strlit(" ");
    let r = event_m(m, e);
    let m1 = if m.target is None {
        BuilderModel { target: Some(Inline::Paragraph), ..m }
    } else {
        m
    };
    if m1.spans.len() > 0 && m1.spans.last().style == m1.style && m1.spans.last().link == m1.link {
        let last = m1.spans.last();
        let u = m1.spans.update(m1.spans.len() - 1, SpanModel { text: last.text + " "@, ..last });
        assert(r.spans == u);
        assert(u.drop_last() =~= m.spans.drop_last());
        assert(spans_text(u) =~= spans_text(m.spans.drop_last()) + (last.text + " "@));
        assert(spans_text(m.spans) == spans_text(m.spans.drop_last()) + last.text);
        assert(spans_text(u) =~= spans_text(m.spans) + " "@);
    } else {
        let u = m1.spans.push(SpanModel { text: " "@, style: m1.style, link: m1.link });
        assert(r.spans == u);
        assert(u.drop_last() =~= m.spans);
    }
}

/// Finishing a table row appends it after the rows before it, in order:
/// the rows already finished stay as they were, the finished row comes
/// last, and a new row starts empty.
pub proof fn law_table_row_is_appended(m: BuilderModel)
    requires
        m.table is Some,
    ensures
        end_m(m, TagKind::TableRow).table is Some,
        ({
            let before = m.table->0;
            let after = end_m(m, TagKind::TableRow).table->0;
            &&& after.rows.len() == before.rows.len() + 1
            &&& forall|i: int| 0 <= i < before.rows.len() ==> after.rows[i] == before.rows[i]
            &&& after.rows[before.rows.len() as int] == before.row
            &&& after.row.len() == 0
            &&& after.header == before.header
        }),
{
}

/// A list left open at the end of the input, with an item still open in it,
/// is unwound into the document: the item joins the list, and the list is
/// the document.
pub proof fn law_open_list_is_kept(
    m: BuilderModel,
    start: Option<u64>,
    items: Seq<ItemModel>,
    task: Option<bool>,
    blocks: Seq<BlockModel>,
)
    requires
        m.spans.len() == 0,
        m.stack == seq![FrameModel::List { start, items }, FrameModel::Item { task, blocks }],
    ensures
        finish_m(m) == seq![BlockModel::List { start, items: items.push(ItemModel { task, blocks }) }],
{
    let m1 = close_frame_m(m);
    assert(m.stack.drop_last() =~= seq![FrameModel::List { start, items }]);
    assert(m1.stack =~= seq![FrameModel::List { start, items: items.push(ItemModel { task, blocks }) }]);
    let m2 = close_frame_m(m1);
    assert(m1.stack.drop_last() =~= Seq::<FrameModel>::empty());
    assert(innermost(Seq::<FrameModel>::empty()) is None);
    assert(m2.stack =~= seq![FrameModel::Blocks(seq![BlockModel::List { start, items: items.push(ItemModel { task, blocks }) }])]);
    assert(close_all_m(m2, 0) == m2);
    assert(close_all_m(m1, 1) == m2);
    assert(close_all_m(m, 2) == m2);
}

/// The display tree of a Markdown text.
pub open spec fn document_of(events: Seq<EventModel>) -> Seq<BlockModel> {
    finish_m(run_m(empty_model(), events))
}

// ------------------------------------------------------------------- exec

/// A block container currently being filled.
pub enum Frame {
    Blocks(Vec<Block>),
    List { start: Option<u64>, items: Vec<Item> },
    Item { task: Option<bool>, blocks: Vec<Block> },
}

impl View for Frame {
    type V = FrameModel;

    open spec fn view(&self) -> FrameModel {
        match self {
            Frame::Blocks(v) => FrameModel::Blocks(blocks_view(v@)),
            Frame::List { start, items } => FrameModel::List {
                start: *start,
                items: items_view(items@),
            },
            Frame::Item { task, blocks } => FrameModel::Item {
                task: *task,
                blocks: blocks_view(blocks@),
            },
        }
    }
}

pub struct TableState {
    pub table: Table,
    pub row: Vec<Vec<Span>>,
    pub in_header: bool,
}

impl View for TableState {
    type V = TableModel;

    open spec fn view(&self) -> TableModel {
        TableModel {
            header: row_view(self.table.header@),
            rows: rows_view(self.table.rows@),
            row: row_view(self.row@),
            in_header: self.in_header,
        }
    }
}

pub struct CodeState {
    pub lang: Option<String>,
    pub text: String,
}

impl View for CodeState {
    type V = CodeModel;

    open spec fn view(&self) -> CodeModel {
        CodeModel { lang: opt_str_view(self.lang), text: self.text@ }
    }
}

pub open spec fn opt_table_view(t: Option<TableState>) -> Option<TableModel> {
    match t {
        Some(x) => Some(x@),
        None => None,
    }
}

pub open spec fn opt_code_view(c: Option<CodeState>) -> Option<CodeModel> {
    match c {
        Some(x) => Some(x@),
        None => None,
    }
}

pub open spec fn stack_view(s: Seq<Frame>) -> Seq<FrameModel> {
    s.map_values(|f: Frame| f@)
}

/// Folds events into a display tree.
pub struct Builder {
    pub stack: Vec<Frame>,
    pub spans: Vec<Span>,
    pub target: Option<Inline>,
    pub style: Style,
    pub link: Option<Link>,
    /// Nesting depth of each mark, so `**a *b* c**` closes correctly.
    pub bold: u32,
    pub italic: u32,
    pub strike: u32,
    pub table: Option<TableState>,
    pub code: Option<CodeState>,
    pub meta: Option<String>,
}

impl View for Builder {
    type V = BuilderModel;

    open spec fn view(&self) -> BuilderModel {
        BuilderModel {
            stack: stack_view(self.stack@),
            spans: spans_view(self.spans@),
            target: self.target,
            style: self.style,
            link: opt_link_view(self.link),
            bold: self.bold,
            italic: self.italic,
            strike: self.strike,
            table: opt_table_view(self.table),
            code: opt_code_view(self.code),
            meta: opt_str_view(self.meta),
        }
    }
}

pub proof fn lemma_innermost_take(s: Seq<FrameModel>, i: int)
    requires
        0 < i <= s.len(),
        s[i - 1] is List,
    ensures
        innermost(s.take(i)) == innermost(s.take(i - 1)),
{
    assert(s.take(i).drop_last() =~= s.take(i - 1));
}

impl Builder {
    pub fn new() -> (r: Builder)
        ensures
            r@ == empty_model(),
    {
        let b = Builder {
            stack: Vec::new(),
            spans: Vec::new(),
            target: None,
            style: Style { bold: false, italic: false, code: false, strike: false, tag: false },
            link: None,
            bold: 0,
            italic: 0,
            strike: 0,
            table: None,
            code: None,
            meta: None,
        };
        assert(b@.stack =~= empty_model().stack);
        assert(b@.spans =~= empty_model().spans);
        b
    }

    /// The innermost open container that holds blocks.
    fn innermost(&self) -> (r: Option<usize>)
        ensures
            match r {
                Some(i) => i < self.stack.len() && innermost(self@.stack) == Some(i as int),
                None => innermost(self@.stack) is None,
            },
    {
        let ghost sv = self@.stack;
        let mut i = self.stack.len();
        assert(sv.take(i as int) =~= sv);
        while i > 0
            invariant
                i <= self.stack.len(),
                sv == stack_view(self.stack@),
                innermost(sv) == innermost(sv.take(i as int)),
            decreases i,
        {
            match &self.stack[i - 1] {
                Frame::List { .. } => {
                    proof {
                        lemma_innermost_take(sv, i as int);
                    }
                    i -= 1;
                },
                _ => {
                    assert(sv.take(i as int).last() == sv[i - 1]);
                    return Some(i - 1);
                },
            }
        }
        None
    }

    /// Appends a block to the innermost container, opening a root if needed.
    fn push_block(&mut self, b: Block)
        ensures
            final(self)@ == push_block_m(old(self)@, block_view(b)),
    {
        let ghost bv = block_view(b);
        match self.innermost() {
            None => {
                let mut v: Vec<Block> = Vec::new();
                v.push(b);
                proof {
                    lemma_blocks_view_push(Seq::empty(), b);
                    assert(Seq::<Block>::empty().push(b) =~= v@);
                    assert(blocks_view(v@) =~= seq![bv]);
                }
                self.stack.push(Frame::Blocks(v));
                assert(stack_view(self.stack@) =~= stack_view(old(self).stack@).push(
                    FrameModel::Blocks(seq![bv]),
                ));
            },
            Some(i) => {
                let ghost before = stack_view(self.stack@);
                let f = self.stack.remove(i);
                let f2 = match f {
                    Frame::Blocks(mut v) => {
                        proof {
                            lemma_blocks_view_push(v@, b);
                        }
                        v.push(b);
                        Frame::Blocks(v)
                    },
                    Frame::Item { task, mut blocks } => {
                        proof {
                            lemma_blocks_view_push(blocks@, b);
                        }
                        blocks.push(b);
                        Frame::Item { task, blocks }
                    },
                    Frame::List { start, items } => Frame::List { start, items },
                };
                assert(f2@ == add_block(before[i as int], bv));
                self.stack.insert(i, f2);
                assert(stack_view(self.stack@) =~= before.update(i as int, add_block(before[i as int], bv)));
            },
        }
    }

    /// Takes the pending spans as a block receives them.
    fn take_spans(&mut self) -> (r: Vec<Span>)
        ensures
            spans_view(r@) == finished_spans(old(self)@.spans),
            final(self)@ == (BuilderModel { spans: Seq::empty(), ..old(self)@ }),
    {
        let ghost m = self@;
        let mut spans: Vec<Span> = Vec::new();
        std::mem::swap(&mut spans, &mut self.spans);
        assert(self@.spans =~= Seq::<SpanModel>::empty());
        assert(spans_view(spans@) == m.spans);
        if spans.len() > 0 {
            let ghost before = spans@;
            let mut last = spans.pop().unwrap();
            let v = chars_of(last.text.as_str());
            let end = trim_end_index(&v, v.len());
            assert(v@.take(v.len() as int) =~= v@);
            last.text = string_of_range(&v, 0, end);
            assert(v@.subrange(0, end as int) =~= v@.take(end as int));
            spans.push(last);
            assert(spans_view(spans@) =~= m.spans.update(
                m.spans.len() - 1,
                SpanModel { text: trim_end(m.spans.last().text), ..m.spans.last() },
            ));
        }
        keep_nonempty(spans)
    }

    /// Emits inline text that no explicit paragraph will claim.
    ///
    /// A tight list (`- one` with no blank lines) carries its text directly
    /// inside the item, with no paragraph tag to close it. Without this, that
    /// text would surface inside whichever later block happened to flush.
    fn flush_inline(&mut self)
        ensures
            final(self)@ == flush_inline_m(old(self)@),
    {
        if self.spans.len() == 0 {
            return;
        }
        if let Some(Inline::TableCell) = self.target {
            return;
        }
        let spans = self.take_spans();
        if spans.len() == 0 {
            return;
        }
        match self.target {
            Some(Inline::Heading(level)) => self.push_block(Block::Heading { level, spans }),
            _ => self.push_block(Block::Paragraph(spans)),
        }
        self.target = None;
    }

    /// Text taken literally, with no tag scanning.
    fn raw(&mut self, t: &str)
        ensures
            final(self)@ == raw_m(old(self)@, t@),
    {
        if t.is_empty() {
            return;
        }
        if self.code.is_some() {
            let mut c = self.code.take().unwrap();
            c.text.append(t);
            self.code = Some(c);
            return;
        }
        if self.meta.is_some() {
            let mut m = self.meta.take().unwrap();
            m.append(t);
            self.meta = Some(m);
            return;
        }
        if self.target.is_none() {
            // Text outside any block (rare, but valid) starts a paragraph.
            self.target = Some(Inline::Paragraph);
        }
        // Merge into the previous run when the marks match, which keeps the
        // span count close to the number of visually distinct runs.
        let n = self.spans.len();
        if n > 0 && self.spans[n - 1].style == self.style && same_link(
            &self.spans[n - 1].link,
            &self.link,
        ) {
            let ghost before = spans_view(self.spans@);
            let mut last = self.spans.pop().unwrap();
            last.text.append(t);
            self.spans.push(last);
            assert(spans_view(self.spans@) =~= before.update(
                n - 1,
                SpanModel { text: before.last().text + t@, ..before.last() },
            ));
            return;
        }
        let ghost before = spans_view(self.spans@);
        self.spans.push(Span { text: t.to_owned(), style: self.style, link: copy_link(&self.link) });
        assert(spans_view(self.spans@) =~= before.push(
            SpanModel { text: t@, style: self.style, link: opt_link_view(self.link) },
        ));
    }

    /// `raw` under an extra mark that is dropped again afterwards.
    fn raw_marked(&mut self, t: &str, code: bool, tag: bool)
        ensures
            final(self)@ == raw_marked_m(old(self)@, t@, code, tag),
    {
        let saved = self.style;
        self.style = Style { code: saved.code || code, tag: saved.tag || tag, ..saved };
        self.raw(t);
        self.style = saved;
    }

    fn sync_style(&mut self)
        ensures
            final(self)@ == sync_m(old(self)@),
    {
        self.style = Style {
            bold: self.bold > 0,
            italic: self.italic > 0,
            strike: self.strike > 0,
            ..self.style
        };
    }

    /// Whether the last pending span ends in whitespace, or there is none.
    fn at_boundary(&self) -> (r: bool)
        ensures
            r == at_boundary(self@),
    {
        let n = self.spans.len();
        if n == 0 {
            return true;
        }
        let v = chars_of(self.spans[n - 1].text.as_str());
        v.len() > 0 && is_whitespace(v[v.len() - 1])
    }

    /// Scans `v` for Obsidian tags, marking each one it finds.
    fn scan(&mut self, v: &Vec<char>, at_start: bool)
        ensures
            final(self)@ == scan_m(old(self)@, v@, at_start),
    {
        let mut pos: usize = 0;
        let mut at = at_start;
        assert(v@.skip(0) =~= v@);
        loop
            invariant
                pos <= v.len(),
                scan_m(old(self)@, v@, at_start) == scan_m(self@, v@.skip(pos as int), at),
            decreases v.len() - pos,
        {
            let ghost rest = v@.skip(pos as int);
            let mut h = pos;
            while h < v.len() && v[h] != '#'
                invariant
                    pos <= h <= v.len(),
                    forall|k: int| pos <= k < h ==> v@[k] != '#',
                decreases v.len() - h,
            {
                h += 1;
            }
            proof {
                assert forall|k: int| 0 <= k < h - pos implies rest[k] != '#' by {
                    assert(rest[k] == v@[pos + k]);
                }
                if h < v.len() {
                    assert(rest[h - pos] == v@[h as int]);
                }
                lemma_first_hash_exact(rest, h - pos);
            }
            if h == v.len() {
                assert(v@.subrange(pos as int, v.len() as int) =~= rest);
                let piece = string_of_range(v, pos, v.len());
                self.raw(piece.as_str());
                return;
            }
            let boundary = if h == pos {
                at
            } else {
                is_whitespace(v[h - 1])
            };
            proof {
                if h > pos {
                    assert(rest[h - pos - 1] == v@[h - 1]);
                }
            }
            let len = tag_len_at(v, h + 1);
            proof {
                assert(rest.skip(h - pos + 1) =~= v@.skip(h + 1));
                lemma_tag_len_bound(v@.skip(h + 1));
            }
            if !boundary || len == 0 {
                assert(rest.take(h - pos + 1) =~= v@.subrange(pos as int, h + 1));
                let piece = string_of_range(v, pos, h + 1);
                self.raw(piece.as_str());
                pos = h + 1;
            } else {
                assert(rest.take(h - pos) =~= v@.subrange(pos as int, h as int));
                assert(rest.subrange(h - pos, h - pos + 1 + len) =~= v@.subrange(
                    h as int,
                    h + 1 + len,
                ));
                assert(v@.skip(h + 1).skip(len as int) =~= v@.skip(h + 1 + len));
                let piece = string_of_range(v, pos, h);
                self.raw(piece.as_str());
                let tagged = string_of_range(v, h, h + 1 + len);
                self.raw_marked(tagged.as_str(), false, true);
                pos = h + 1 + len;
            }
            at = false;
        }
    }

    /// Text from the source, scanned for Obsidian tags.
    fn text(&mut self, t: &str)
        ensures
            final(self)@ == text_m(old(self)@, t@),
    {
        if self.code.is_some() {
            let mut c = self.code.take().unwrap();
            c.text.append(t);
            self.code = Some(c);
            return;
        }
        if self.meta.is_some() {
            let mut m = self.meta.take().unwrap();
            m.append(t);
            self.meta = Some(m);
            return;
        }
        if self.style.code || self.link.is_some() {
            self.raw(t);
            return;
        }
        let at = self.at_boundary();
        let v = chars_of(t);
        self.scan(&v, at);
    }

    /// A paragraph or heading closing: its spans become the block.
    fn close_inline(&mut self, heading: Option<u8>)
        ensures
            final(self)@ == close_inline_m(old(self)@, heading),
    {
        let spans = self.take_spans();
        if spans.len() > 0 {
            match heading {
                Some(level) => self.push_block(Block::Heading { level, spans }),
                None => self.push_block(Block::Paragraph(spans)),
            }
        }
        self.target = None;
    }

    fn start(&mut self, k: TagKind, text: &Option<String>, extra: Extra)
        ensures
            final(self)@ == start_m(old(self)@, k, opt_chars(*text), extra),
    {
        if is_block_opener(k) {
            self.flush_inline();
        }
        let ghost m0 = self@;
        match k {
            TagKind::Paragraph => self.target = Some(Inline::Paragraph),
            TagKind::Heading(level) => self.target = Some(Inline::Heading(level)),
            TagKind::BlockQuote => {
                self.stack.push(Frame::Blocks(Vec::new()));
                assert(self@.stack =~= m0.stack.push(FrameModel::Blocks(Seq::empty())));
            },
            TagKind::CodeBlock => {
                self.code = Some(CodeState { lang: code_language(text), text: String::new() });
            },
            TagKind::List => {
                let start = match extra {
                    Extra::List(n) => n,
                    _ => None,
                };
                self.stack.push(Frame::List { start, items: Vec::new() });
                assert(self@.stack =~= m0.stack.push(
                    FrameModel::List { start, items: Seq::empty() },
                ));
            },
            TagKind::Item => {
                self.stack.push(Frame::Item { task: None, blocks: Vec::new() });
                assert(self@.stack =~= m0.stack.push(
                    FrameModel::Item { task: None, blocks: Seq::empty() },
                ));
            },
            TagKind::Table => {
                self.table = Some(
                    TableState {
                        table: Table { header: Vec::new(), rows: Vec::new() },
                        row: Vec::new(),
                        in_header: false,
                    },
                );
                assert(self@.table->0.header =~= Seq::<Seq<SpanModel>>::empty());
                assert(self@.table->0.rows =~= Seq::<Seq<Seq<SpanModel>>>::empty());
                assert(self@.table->0.row =~= Seq::<Seq<SpanModel>>::empty());
            },
            TagKind::TableHead => {
                if self.table.is_some() {
                    let mut t = self.table.take().unwrap();
                    t.in_header = true;
                    self.table = Some(t);
                }
            },
            TagKind::TableCell => {
                self.target = Some(Inline::TableCell);
                self.spans = Vec::new();
                assert(self@.spans =~= Seq::<SpanModel>::empty());
            },
            TagKind::Emphasis => self.italic = inc(self.italic),
            TagKind::Strong => self.bold = inc(self.bold),
            TagKind::Strikethrough => self.strike = inc(self.strike),
            TagKind::Link => {
                let dest = text_string(text);
                self.link = Some(
                    match extra {
                        Extra::Link(LinkType::WikiLink(_)) => Link::Note(dest),
                        _ => Link::Url(dest),
                    },
                );
            },
            TagKind::Image => {
                // Images are not decoded; a labelled placeholder keeps the
                // note readable and memory flat.
                let mut label = "[image: ".to_owned();
                label.append(text_string(text).as_str());
                label.append("]");
                self.raw(label.as_str());
            },
            TagKind::MetadataBlock => self.meta = Some(String::new()),
            TagKind::FootnoteDefinition => {
                self.stack.push(Frame::Blocks(Vec::new()));
                assert(self@.stack =~= m0.stack.push(FrameModel::Blocks(Seq::empty())));
                let mut label = "[^".to_owned();
                label.append(text_string(text).as_str());
                label.append("]: ");
                self.raw(label.as_str());
            },
            _ => {},
        }
        self.sync_style();
    }

    #[verifier::rlimit(40)]
    #[verifier::spinoff_prover]
    fn end(&mut self, k: TagKind)
        ensures
            final(self)@ == end_m(old(self)@, k),
    {
        if is_flushing_end(k) {
            self.flush_inline();
        }
        let ghost m0 = self@;
        match k {
            TagKind::Paragraph => self.close_inline(None),
            TagKind::Heading(level) => self.close_inline(Some(level)),
            TagKind::BlockQuote | TagKind::FootnoteDefinition | TagKind::List | TagKind::Item => {
                self.close_frame()
            },
            TagKind::CodeBlock => {
                if self.code.is_some() {
                    let c = self.code.take().unwrap();
                    let text = trimmed_end(c.text.as_str());
                    self.push_block(Block::Code { lang: c.lang, text });
                }
            },
            TagKind::Table => {
                if self.table.is_some() {
                    let t = self.table.take().unwrap();
                    self.push_block(Block::Table(t.table));
                }
            },
            TagKind::TableHead => {
                if self.table.is_some() {
                    let mut t = self.table.take().unwrap();
                    t.in_header = false;
                    let mut row: Vec<Vec<Span>> = Vec::new();
                    std::mem::swap(&mut row, &mut t.row);
                    t.table.header = row;
                    assert(row_view(t.row@) =~= Seq::<Seq<SpanModel>>::empty());
                    self.table = Some(t);
                }
            },
            TagKind::TableRow => {
                if self.table.is_some() {
                    let mut t = self.table.take().unwrap();
                    let ghost tm = t@;
                    let mut row: Vec<Vec<Span>> = Vec::new();
                    std::mem::swap(&mut row, &mut t.row);
                    t.table.rows.push(row);
                    assert(row_view(t.row@) =~= Seq::<Seq<SpanModel>>::empty());
                    assert(rows_view(t.table.rows@) =~= tm.rows.push(tm.row));
                    self.table = Some(t);
                }
            },
            TagKind::TableCell => {
                let mut cell: Vec<Span> = Vec::new();
                std::mem::swap(&mut cell, &mut self.spans);
                assert(self@.spans =~= Seq::<SpanModel>::empty());
                if self.table.is_some() {
                    let mut t = self.table.take().unwrap();
                    let ghost tm = t@;
                    t.row.push(cell);
                    assert(row_view(t.row@) =~= tm.row.push(m0.spans));
                    self.table = Some(t);
                }
            },
            TagKind::Emphasis => self.italic = dec(self.italic),
            TagKind::Strong => self.bold = dec(self.bold),
            TagKind::Strikethrough => self.strike = dec(self.strike),
            TagKind::Link | TagKind::Image => self.link = None,
            TagKind::MetadataBlock => {
                if self.meta.is_some() {
                    let text = self.meta.take().unwrap();
                    let trimmed = trimmed_end(text.as_str());
                    if !trimmed.as_str().is_empty() {
                        self.push_block(Block::Meta(trimmed));
                    }
                }
            },
            _ => {},
        }
        self.sync_style();
    }

    /// Applies one event.
    pub fn event(&mut self, e: &Event)
        ensures
            final(self)@ == event_m(old(self)@, e@),
    {
        match e.shape {
            Shape::Start => match e.tag {
                Some(k) => self.start(k, &e.text, e.extra),
                None => {},
            },
            Shape::End => match e.tag {
                Some(k) => self.end(k),
                None => {},
            },
            Shape::Text => {
                let t = text_string(&e.text);
                self.text(t.as_str());
            },
            Shape::Code | Shape::InlineMath | Shape::DisplayMath | Shape::InlineHtml => {
                let t = text_string(&e.text);
                self.raw_marked(t.as_str(), true, false);
            },
            Shape::SoftBreak => self.raw(" "),
            Shape::HardBreak => self.raw("\n"),
            Shape::Rule => {
                self.flush_inline();
                self.push_block(Block::Rule);
            },
            Shape::TaskListMarker(done) => {
                let n = self.stack.len();
                if n > 0 {
                    let ghost sv = self@.stack;
                    match self.stack.pop().unwrap() {
                        Frame::Item { task: _, blocks } => {
                            self.stack.push(Frame::Item { task: Some(done), blocks });
                            assert(self@.stack =~= sv.update(
                                n - 1,
                                FrameModel::Item { task: Some(done), blocks: sv.last()->blocks },
                            ));
                        },
                        other => {
                            self.stack.push(other);
                            assert(self@.stack =~= sv);
                        },
                    }
                }
            },
            Shape::FootnoteReference => {
                let mut label = "[^".to_owned();
                label.append(text_string(&e.text).as_str());
                label.append("]");
                self.raw(label.as_str());
            },
            Shape::Html => {
                // Raw HTML is shown as-is rather than silently dropped, so a
                // note that leans on HTML is still legible.
                self.flush_inline();
                let text = trimmed_end(text_string(&e.text).as_str());
                self.push_block(Block::Code { lang: Some("html".to_owned()), text });
            },
        }
    }

    /// The document, once every event has been applied: pending text is
    /// emitted and containers left open are unwound.
    pub fn finish(self) -> (r: Document)
        ensures
            r@ == finish_m(self@),
    {
        let mut b = self;
        b.flush_inline();
        let ghost flushed = b@;
        let mut n = b.stack.len();
        while n > 0 && !b.unwound()
            invariant
                close_all_m(flushed, flushed.stack.len()) == close_all_m(b@, n as nat),
            decreases n,
        {
            b.close_frame();
            n -= 1;
        }
        let ghost closed = b@;
        match b.stack.pop() {
            Some(Frame::Blocks(blocks)) => Document { blocks },
            _ => Document { blocks: Vec::new() },
        }
    }

    /// Whether nothing is left open but, at most, a root holding blocks.
    fn unwound(&self) -> (r: bool)
        ensures
            r == unwound_m(self@),
    {
        if self.stack.len() == 0 {
            return true;
        }
        if self.stack.len() > 1 {
            return false;
        }
        match &self.stack[0] {
            Frame::Blocks(_) => true,
            _ => false,
        }
    }

    /// Pops one container and folds it into its parent.
    fn close_frame(&mut self)
        ensures
            final(self)@ == close_frame_m(old(self)@),
    {
        let ghost m = self@;
        match self.stack.pop() {
            Some(Frame::Blocks(v)) => {
                assert(stack_view(self.stack@) =~= m.stack.drop_last());
                self.push_block(Block::Quote(v));
            },
            Some(Frame::List { start, items }) => {
                assert(stack_view(self.stack@) =~= m.stack.drop_last());
                self.push_block(Block::List(List { start, items }));
            },
            Some(Frame::Item { task, blocks }) => {
                assert(stack_view(self.stack@) =~= m.stack.drop_last());
                if self.stack.len() > 0 {
                    let ghost rest = stack_view(self.stack@);
                    match self.stack.pop().unwrap() {
                        Frame::List { start, mut items } => {
                            proof {
                                lemma_items_view_push(items@, Item { task, blocks });
                            }
                            items.push(Item { task, blocks });
                            self.stack.push(Frame::List { start, items });
                            assert(stack_view(self.stack@) =~= rest.update(
                                rest.len() - 1,
                                FrameModel::List {
                                    start: rest.last()->start,
                                    items: rest.last()->items.push(
                                        ItemModel { task, blocks: blocks_view(blocks@) },
                                    ),
                                },
                            ));
                        },
                        other => {
                            self.stack.push(other);
                            assert(stack_view(self.stack@) =~= rest);
                        },
                    }
                }
            },
            None => {},
        }
    }
}

/// Whether two optional links are the same link.
fn same_link(a: &Option<Link>, b: &Option<Link>) -> (r: bool)
    ensures
        r == (opt_link_view(*a) == opt_link_view(*b)),
{
    match a {
        None => b.is_none(),
        Some(Link::Url(x)) => match b {
            Some(Link::Url(y)) => x.eq(y),
            _ => false,
        },
        Some(Link::Note(x)) => match b {
            Some(Link::Note(y)) => x.eq(y),
            _ => false,
        },
    }
}

fn copy_link(l: &Option<Link>) -> (r: Option<Link>)
    ensures
        opt_link_view(r) == opt_link_view(*l),
{
    match l {
        None => None,
        Some(Link::Url(x)) => Some(Link::Url(x.clone())),
        Some(Link::Note(x)) => Some(Link::Note(x.clone())),
    }
}

/// The spans of `v` whose text is not empty, in order.
fn keep_nonempty(v: Vec<Span>) -> (r: Vec<Span>)
    ensures
        spans_view(r@) == nonempty_spans(spans_view(v@)),
{
    let ghost sv = spans_view(v@);
    let n = v.len();
    let mut v = v;
    let mut reversed: Vec<Span> = Vec::new();
    while v.len() > 0
        invariant
            v@.len() + reversed@.len() == n == sv.len(),
            forall|k: int| 0 <= k < v@.len() ==> #[trigger] v@[k]@ == sv[k],
            forall|k: int| 0 <= k < reversed@.len() ==> #[trigger] reversed@[k]@ == sv[n - 1 - k],
        decreases v@.len(),
    {
        let x = v.pop().unwrap();
        reversed.push(x);
    }
    let mut out: Vec<Span> = Vec::new();
    assert(sv.take(0) =~= Seq::<SpanModel>::empty());
    while reversed.len() > 0
        invariant
            reversed@.len() <= n == sv.len(),
            forall|k: int| 0 <= k < reversed@.len() ==> #[trigger] reversed@[k]@ == sv[n - 1 - k],
            spans_view(out@) == nonempty_spans(sv.take(n - reversed@.len())),
        decreases reversed@.len(),
    {
        let ghost k = n - reversed@.len();
        let x = reversed.pop().unwrap();
        assert(x@ == sv[k]);
        assert(sv.take(k + 1).drop_last() =~= sv.take(k));
        assert(sv.take(k + 1).last() == sv[k]);
        if !x.text.as_str().is_empty() {
            let ghost before = spans_view(out@);
            out.push(x);
            assert(spans_view(out@) =~= before.push(sv[k]));
        }
    }
    assert(sv.take(n as int) =~= sv);
    out
}

fn inc(x: u32) -> (r: u32)
    ensures
        r == sat_inc(x),
{
    if x < u32::MAX {
        x + 1
    } else {
        x
    }
}

fn dec(x: u32) -> (r: u32)
    ensures
        r == sat_dec(x),
{
    if x > 0 {
        x - 1
    } else {
        0
    }
}

fn is_block_opener(k: TagKind) -> (r: bool)
    ensures
        r == opens_block(k),
{
    match k {
        TagKind::Paragraph | TagKind::Heading(_) | TagKind::BlockQuote | TagKind::CodeBlock
        | TagKind::List | TagKind::Item | TagKind::Table | TagKind::MetadataBlock
        | TagKind::FootnoteDefinition | TagKind::HtmlBlock | TagKind::DefinitionList
        | TagKind::DefinitionListTitle | TagKind::DefinitionListDefinition => true,
        _ => false,
    }
}

fn is_flushing_end(k: TagKind) -> (r: bool)
    ensures
        r == end_flushes(k),
{
    match k {
        TagKind::Item | TagKind::List | TagKind::BlockQuote | TagKind::FootnoteDefinition
        | TagKind::DefinitionListTitle | TagKind::DefinitionListDefinition => true,
        _ => false,
    }
}

/// The text an event carries, or nothing.
fn text_string(t: &Option<String>) -> (r: String)
    ensures
        r@ == text_or_empty(opt_chars(*t)),
{
    match t {
        Some(s) => s.clone(),
        None => String::new(),
    }
}

/// `t` without trailing whitespace.
fn trimmed_end(t: &str) -> (r: String)
    ensures
        r@ == trim_end(t@),
{
    let v = chars_of(t);
    let end = trim_end_index(&v, v.len());
    assert(v@.take(v.len() as int) =~= v@);
    assert(v@.subrange(0, end as int) =~= v@.take(end as int));
    string_of_range(&v, 0, end)
}

pub proof fn lemma_word_len_exact(s: Seq<char>, n: int)
    requires
        0 <= n <= s.len(),
        forall|i: int| 0 <= i < n ==> !is_space(#[trigger] s[i]),
        n < s.len() ==> is_space(s[n]),
    ensures
        word_len(s) == n,
    decreases s.len(),
{
    if n > 0 {
        assert forall|i: int| 0 <= i < n - 1 implies !is_space(#[trigger] s.drop_first()[i]) by {
            assert(s.drop_first()[i] == s[i + 1]);
        }
        if n - 1 < s.drop_first().len() {
            assert(s.drop_first()[n - 1] == s[n]);
        }
        lemma_word_len_exact(s.drop_first(), n - 1);
    }
}

/// The language named by a fenced code block's info string.
fn code_language(info: &Option<String>) -> (r: Option<String>)
    ensures
        opt_str_view(r) == lang_of(opt_chars(*info)),
{
    match info {
        None => None,
        Some(i) => {
            let v = chars_of(i.as_str());
            let (a, _) = trim_range(&v, 0, v.len());
            assert(v@.subrange(0, v.len() as int) =~= v@);
            let mut b = a;
            while b < v.len() && !is_whitespace(v[b])
                invariant
                    a <= b <= v.len(),
                    forall|k: int| a <= k < b ==> !is_space(#[trigger] v@[k]),
                decreases v.len() - b,
            {
                b += 1;
            }
            let ghost t = v@.subrange(a as int, v.len() as int);
            proof {
                assert forall|k: int| 0 <= k < b - a implies !is_space(#[trigger] t[k]) by {
                    assert(t[k] == v@[a + k]);
                }
                if b < v.len() {
                    assert(t[b - a] == v@[b as int]);
                }
                lemma_word_len_exact(t, b - a);
                assert(t.take(b - a) =~= v@.subrange(a as int, b as int));
            }
            if b == a {
                None
            } else {
                Some(string_of_range(&v, a, b))
            }
        },
    }
}

/// Length of the `#tag` body starting at `v[from]`, or 0.
fn tag_len_at(v: &Vec<char>, from: usize) -> (r: usize)
    requires
        from <= v.len(),
    ensures
        r == tag_len(v@.skip(from as int)),
{
    let ghost s = v@.skip(from as int);
    let mut i: usize = 0;
    let mut has_alpha = false;
    while from + i < v.len() && (is_alphanumeric(v[from + i]) || (i > 0 && (v[from + i] == '_'
        || v[from + i] == '-' || v[from + i] == '/')))
        invariant
            from + i <= v.len(),
            s == v@.skip(from as int),
            tag_run(s, 0) == tag_run(s, i as nat),
            has_alpha == exists|k: int| 0 <= k < i && alphabetic(#[trigger] s[k]),
        decreases v.len() - from - i,
    {
        assert(s[i as int] == v@[from + i]);
        let c = v[from + i];
        let alpha = is_alphabetic(c);
        proof {
            if alpha {
                assert(alphabetic(s[i as int]));
            }
            if has_alpha && !alpha {
                let k = choose|k: int| 0 <= k < i && alphabetic(#[trigger] s[k]);
                assert(0 <= k < i + 1 && alphabetic(s[k]));
            }
        }
        has_alpha = has_alpha || alpha;
        i += 1;
    }
    proof {
        if from + i < v.len() {
            assert(i < s.len());
            assert(s[i as int] == v@[from + i as int]);
        }
        assert(tag_run(s, i as nat) == i);
    }
    if has_alpha {
        i
    } else {
        0
    }
}

} // verus!
