//! What the reader can do by clicking in a rendered note.

use vstd::prelude::*;

use crate::markdown::Link;
use crate::text::chars_of;

verus! {

/// Something the reader clicked.
pub enum Action {
    /// An Obsidian `[[wikilink]]`.
    OpenNote(String),
    /// An external URL.
    OpenUrl(String),
}

impl Action {
    /// What clicking `link` asks for: a wikilink opens a note, anything else
    /// goes to the desktop's handler.
    pub fn for_link(link: &Link) -> (r: Action)
        ensures
            match link {
                Link::Note(name) => r matches Action::OpenNote(n) && n@ == name@,
                Link::Url(url) => r matches Action::OpenUrl(u) && u@ == url@,
            },
    {
        match link {
            Link::Note(name) => Action::OpenNote(name.clone()),
            Link::Url(url) => Action::OpenUrl(url.clone()),
        }
    }
}


/// Whether a link may be handed to the desktop: web and mail links only, so
/// a link can never open a local path.
pub open spec fn web_link(url: Seq<char>) -> bool {
    url.take(7) == "http://"@ && url.len() >= 7 || url.take(8) == "https://"@ && url.len() >= 8 || url.take(7)
        == "mailto:"@ && url.len() >= 7
}

fn has_prefix(s: &Vec<char>, p: &str) -> (r: bool)
    ensures
        r == (s@.len() >= p@.len() && s@.take(p@.len() as int) == p@),
{
    let q = chars_of(p);
    if q.len() > s.len() {
        return false;
    }
    let mut i: usize = 0;
    while i < q.len()
        invariant
            i <= q.len() <= s.len(),
            q@ == p@,
            forall|j: int| 0 <= j < i ==> s@[j] == q@[j],
        decreases q.len() - i,
    {
        if s[i] != q[i] {
            assert(s@.take(q.len() as int)[i as int] != q@[i as int]);
            return false;
        }
        i += 1;
    }
    assert(s@.take(q.len() as int) =~= q@);
    true
}

/// Whether `url` may be opened with the desktop's handler.
pub fn safe_url(url: &str) -> (r: bool)
    ensures
        r == web_link(url@),
{
    let v = chars_of(url);
    proof {
        reveal_strlit("http://");
        reveal_strlit("https://");
        reveal_strlit("mailto:");
    }
    has_prefix(&v, "http://") || has_prefix(&v, "https://") || has_prefix(&v, "mailto:")
}

} // verus!
