//! The calls into `pulldown-cmark`. Each one runs the parser over the same
//! text with the same options and reports one facet of every event: its
//! shape, the text it carries, the tag it opens or closes, and the extra
//! details of a list or link start.

use vstd::prelude::*;

use pulldown_cmark::LinkType::{
    Autolink, Collapsed, CollapsedUnknown, Email, Inline, Reference, ReferenceUnknown, Shortcut,
    ShortcutUnknown, WikiLink,
};
use pulldown_cmark::TagEnd::{
    BlockQuote, CodeBlock, DefinitionList, DefinitionListDefinition, DefinitionListTitle,
    Emphasis, FootnoteDefinition, Heading, HtmlBlock, Image, Item, Link, List, MetadataBlock,
    Paragraph, Strikethrough, Strong, Subscript, Superscript, Table, TableCell, TableHead,
    TableRow,
};
use pulldown_cmark::{CodeBlockKind, Event as E, Options, Parser, Tag as T};

use super::events::{
    block_tags, extras_of, inline_tags, markdown_events, opt_chars, shapes_of, texts_of, Extra as X,
    LinkType as Lt, Shape as S, TagKind as K,
};

verus! {

/// `Parser::new_ext(text, options)`, reporting the shape of each event.
#[verifier::external_body]
pub(crate) fn md_shapes(text: &str, options: u32) -> (r: Vec<S>)
    ensures
        r@ == shapes_of(markdown_events(text@, options)),
{
    Parser::new_ext(text, Options::from_bits_truncate(options)).map(|e| match e {
        E::Start(_) => S::Start,
        E::End(_) => S::End,
        E::Text(_) => S::Text,
        E::Code(_) => S::Code,
        E::InlineMath(_) => S::InlineMath,
        E::DisplayMath(_) => S::DisplayMath,
        E::Html(_) => S::Html,
        E::InlineHtml(_) => S::InlineHtml,
        E::FootnoteReference(_) => S::FootnoteReference,
        E::SoftBreak => S::SoftBreak,
        E::HardBreak => S::HardBreak,
        E::Rule => S::Rule,
        E::TaskListMarker(done) => S::TaskListMarker(done),
    }).collect()
}

/// `Parser::new_ext(text, options)`, reporting the text each event carries:
/// the contents of text-like events, the info string of a fenced code block,
/// the name of a footnote definition, and the destination of a link or image.
#[verifier::external_body]
pub(crate) fn md_texts(text: &str, options: u32) -> (r: Vec<Option<String>>)
    ensures
        r@.map_values(|t: Option<String>| opt_chars(t)) == texts_of(markdown_events(text@, options)),
{
    Parser::new_ext(text, Options::from_bits_truncate(options)).map(|e| match e {
        E::Text(s) | E::Code(s) | E::InlineMath(s) | E::DisplayMath(s) => Some(s.into()),
        E::Html(s) | E::InlineHtml(s) | E::FootnoteReference(s) => Some(s.into()),
        E::Start(T::CodeBlock(CodeBlockKind::Fenced(s))) => Some(s.into()),
        E::Start(T::FootnoteDefinition(s)) => Some(s.into()),
        E::Start(T::Link { dest_url: s, .. }) | E::Start(T::Image { dest_url: s, .. }) => Some(s.into()),
        _ => None,
    }).collect()
}

/// `Parser::new_ext(text, options)`, reporting for each start or end of a
/// block-level tag which tag it is (a start tag through its `to_end`).
#[verifier::external_body]
pub(crate) fn md_block_tags(text: &str, options: u32) -> (r: Vec<Option<K>>)
    ensures
        r@ == block_tags(markdown_events(text@, options)),
{
    Parser::new_ext(text, Options::from_bits_truncate(options)).map(|e| match e {
        E::Start(t) => Some(t.to_end()), E::End(t) => Some(t), _ => None,
    }.and_then(|t| Some(match t {
        Paragraph => K::Paragraph, Heading(level) => K::Heading(level as u8),
        BlockQuote(_) => K::BlockQuote, CodeBlock => K::CodeBlock,
        HtmlBlock => K::HtmlBlock, List(_) => K::List, Item => K::Item,
        FootnoteDefinition => K::FootnoteDefinition,
        DefinitionList => K::DefinitionList, DefinitionListTitle => K::DefinitionListTitle,
        DefinitionListDefinition => K::DefinitionListDefinition,
        MetadataBlock(_) => K::MetadataBlock, _ => return None,
    }))).collect()
}

/// `Parser::new_ext(text, options)`, reporting for each start or end of a
/// table or inline tag which tag it is (a start tag through its `to_end`).
#[verifier::external_body]
pub(crate) fn md_inline_tags(text: &str, options: u32) -> (r: Vec<Option<K>>)
    ensures
        r@ == inline_tags(markdown_events(text@, options)),
{
    Parser::new_ext(text, Options::from_bits_truncate(options)).map(|e| match e {
        E::Start(t) => Some(t.to_end()), E::End(t) => Some(t), _ => None,
    }.and_then(|t| Some(match t {
        Table => K::Table, TableHead => K::TableHead, TableRow => K::TableRow,
        TableCell => K::TableCell, Emphasis => K::Emphasis, Strong => K::Strong,
        Strikethrough => K::Strikethrough, Superscript => K::Superscript,
        Subscript => K::Subscript, Link => K::Link, Image => K::Image,
        _ => return None,
    }))).collect()
}

/// `Parser::new_ext(text, options)`, reporting where an ordered list starts
/// and how a link was written.
#[verifier::external_body]
pub(crate) fn md_extras(text: &str, options: u32) -> (r: Vec<X>)
    ensures
        r@ == extras_of(markdown_events(text@, options)),
{
    Parser::new_ext(text, Options::from_bits_truncate(options)).map(|e| match e {
        E::Start(T::List(start)) => X::List(start),
        E::Start(T::Link { link_type, .. }) => X::Link(match link_type {
            Inline => Lt::Inline, Reference => Lt::Reference,
            ReferenceUnknown => Lt::ReferenceUnknown, Collapsed => Lt::Collapsed,
            CollapsedUnknown => Lt::CollapsedUnknown, Shortcut => Lt::Shortcut,
            ShortcutUnknown => Lt::ShortcutUnknown, Autolink => Lt::Autolink,
            Email => Lt::Email, WikiLink { has_pothole } => Lt::WikiLink(has_pothole),
        }),
        _ => X::Plain,
    }).collect()
}

} // verus!
