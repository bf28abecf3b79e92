//! Faust's core: the Markdown display tree, split layout, command palette,
//! file tree, settings format and search helpers, with their contracts.

pub mod config;
pub mod settings;
pub mod text;
pub mod markdown;
pub mod paths;
pub mod document;
pub mod index;
pub mod layout;
pub mod fuzzy;
pub mod palette;
pub mod tree;
pub mod render;
pub mod vault;
pub mod wikilink;
