//! Resolving an Obsidian `[[wikilink]]` against the vault's index.
use vstd::prelude::*;

use crate::index::FileEntry;
use crate::paths::{file_stem, lowercase, path_stem, to_lowercase};
use crate::text::{append, chars_of, string_of_range, trim, trimmed};
use crate::config::str_eq;

verus! {

/// `k` is where the first `#` of `s` stands.
pub open spec fn first_hash(s: Seq<char>, k: int) -> bool {
    &&& 0 <= k < s.len()
    &&& s[k] == '#'
    &&& forall|j: int| 0 <= j < k ==> s[j] != '#'
}

/// The part of a link before its heading anchor.
pub open spec fn before_hash(s: Seq<char>) -> Seq<char> {
    if exists|k: int| first_hash(s, k) {
        s.take(choose|k: int| first_hash(s, k))
    } else {
        s
    }
}

/// The note a link names: the part before any `#`, trimmed.
pub open spec fn link_target(name: Seq<char>) -> Seq<char> {
    trim(before_hash(name))
}

/// `entry` is a note that answers to `wanted` (already lower-cased): by its
/// file stem, by its path in the vault, or by that path with `.md` added.
pub open spec fn answers(entry: FileEntry, wanted: Seq<char>) -> bool {
    &&& !entry.is_dir
    &&& {
        ||| (match path_stem(entry.path@) {
            Some(stem) => lowercase(stem) == wanted,
            None => false,
        })
        ||| lowercase(entry.display@) == wanted
        ||| lowercase(entry.display@) == wanted + ".md"@
    }
}

/// Entry `i` is the first of `files` that answers to `wanted`.
pub open spec fn first_answer(files: Seq<FileEntry>, wanted: Seq<char>, i: int) -> bool {
    &&& 0 <= i < files.len()
    &&& answers(files[i], wanted)
    &&& forall|j: int| 0 <= j < i ==> !answers(files[j], wanted)
}

/// The notice shown for a link that names no note.
pub open spec fn no_note_message(target: Seq<char>) -> Seq<char> {
    "no note named \u{201c}"@ + target + "\u{201d}"@
}

/// What a link turned out to point at.
pub enum NoteLink {
    /// Nothing but an anchor, or nothing at all: the link is ignored.
    Blank,
    /// The path of the note to open.
    Found(String),
    /// No note answers to the link; the notice to show.
    Missing(String),
}

/// Whether `entry` answers to `wanted`.
fn answers_exec(entry: &FileEntry, wanted: &str, wanted_md: &str) -> (r: bool)
    requires
        wanted_md@ == wanted@ + ".md"@,
    ensures
        r == answers(*entry, wanted@),
{
    if entry.is_dir {
        return false;
    }
    let by_stem = match file_stem(entry.path.as_str()) {
        Some(stem) => {
            let low = to_lowercase(stem.as_str());
            str_eq(low.as_str(), wanted)
        },
        None => false,
    };
    if by_stem {
        return true;
    }
    let shown = to_lowercase(entry.display.as_str());
    str_eq(shown.as_str(), wanted) || str_eq(shown.as_str(), wanted_md)
}

/// The part of `name` before its first `#`.
fn cut_anchor(name: &str) -> (r: String)
    ensures
        r@ == before_hash(name@),
{
    let v = chars_of(name);
    let mut i: usize = 0;
    while i < v.len()
        invariant
            i <= v@.len(),
            v@ == name@,
            forall|j: int| 0 <= j < i ==> v@[j] != '#',
        decreases v@.len() - i,
    {
        if v[i] == '#' {
            proof {
                assert(first_hash(name@, i as int));
                let k = choose|k: int| first_hash(name@, k);
                assert(k == i as int);
                assert(v@.subrange(0, i as int) =~= name@.take(i as int));
            }
            return string_of_range(&v, 0, i);
        }
        i = i + 1;
    }
    proof {
        assert(!exists|k: int| first_hash(name@, k));
    }
    name.to_owned()
}

/// Resolves a wikilink against the index: the first note, in index order,
/// whose stem or vault path answers to the link, compared without case.
pub fn resolve_note(files: &Vec<FileEntry>, name: &str) -> (r: NoteLink)
    ensures
        link_target(name@).len() == 0 <==> r is Blank,
        match r {
            NoteLink::Blank => true,
            NoteLink::Found(path) => exists|i: int| {
                &&& first_answer(files@, lowercase(link_target(name@)), i)
                &&& path@ == files@[i].path@
            },
            NoteLink::Missing(message) => {
                &&& forall|i: int| 0 <= i < files@.len() ==> !answers(
                    #[trigger] files@[i],
                    lowercase(link_target(name@)),
                )
                &&& message@ == no_note_message(link_target(name@))
            },
        },
{
    let cut = cut_anchor(name);
    let target = trimmed(cut.as_str());
    if target.as_str().is_empty() {
        return NoteLink::Blank;
    }
    let wanted = to_lowercase(target.as_str());
    let mut wanted_md = wanted.clone();
    append(&mut wanted_md, ".md");
    let mut i: usize = 0;
    while i < files.len()
        invariant
            i <= files@.len(),
            target@ == link_target(name@),
            target@.len() > 0,
            wanted@ == lowercase(target@),
            wanted_md@ == wanted@ + ".md"@,
            forall|j: int| 0 <= j < i ==> !answers(#[trigger] files@[j], wanted@),
        decreases files@.len() - i,
    {
        if answers_exec(&files[i], wanted.as_str(), wanted_md.as_str()) {
            proof {
                assert(first_answer(files@, wanted@, i as int));
            }
            return NoteLink::Found(files[i].path.clone());
        }
        i = i + 1;
    }
    let mut message = String::new();
    append(&mut message, "no note named \u{201c}");
    append(&mut message, target.as_str());
    append(&mut message, "\u{201d}");
    NoteLink::Missing(message)
}

} // verus!
