//! Where the application opens: a vault, or a note and the vault around it.
//!
//! Passing a note rather than a folder is the common case when the viewer is
//! started from an editor, so the vault is inferred from the note's
//! ancestry. Asking the file system what exists is the caller's part.

use vstd::prelude::*;

use crate::paths::{opt_seq, parent, path_parent, path_starts_with, starts_with};
use crate::text::append;

verus! {

/// What a command-line argument turned out to mean.
pub enum Target {
    Vault(String),
    Note { vault: String, note: String },
}

/// The folders searched for a vault marker, from `dir` upwards, up to and
/// including the home folder.
pub open spec fn marker_candidates(dir: Option<Seq<char>>, home: Option<Seq<char>>) -> Seq<Seq<char>>
    decreases match dir {
        Some(d) => d.len() + 1,
        None => 0,
    },
{
    match dir {
        None => Seq::empty(),
        Some(d) => if home == Some(d) {
            seq![d]
        } else {
            seq![d] + match path_parent(d) {
                Some(p) => if p.len() < d.len() {
                    marker_candidates(Some(p), home)
                } else {
                    Seq::empty()
                },
                None => Seq::empty(),
            }
        },
    }
}

/// The folders searched for a vault marker (`.obsidian` or `.git`) above a
/// note, nearest first; the search stops at the home folder.
pub fn vault_candidates(note: &str, home: Option<&str>) -> (r: Vec<String>)
    ensures
        crate::config::strings_view(r@) == marker_candidates(path_parent(note@), match home {
            Some(h) => Some(h@),
            None => None,
        }),
{
    let ghost hv: Option<Seq<char>> = match home {
        Some(h) => Some(h@),
        None => None,
    };
    let ghost target = marker_candidates(path_parent(note@), hv);
    let mut out: Vec<String> = Vec::new();
    let mut current = parent(note);
    loop
        invariant
            target == crate::config::strings_view(out@) + marker_candidates(opt_seq(current), hv),
            hv == match home {
                Some(h) => Some(h@),
                None => None,
            },
        ensures
            current is None,
            target == crate::config::strings_view(out@),
        decreases match current {
            Some(d) => d@.len() + 1,
            None => 0,
        },
    {
        if current.is_none() {
            assert(crate::config::strings_view(out@) + Seq::<Seq<char>>::empty() =~= crate::config::strings_view(out@));
            break;
        }
        let dir = current.unwrap();
        let at_home = match home {
            Some(h) => crate::config::str_eq(dir.as_str(), h),
            None => false,
        };
        let next = if at_home {
            None
        } else {
            parent(dir.as_str())
        };
        let ghost before = crate::config::strings_view(out@);
        proof {
            let tail = marker_candidates(opt_seq(next), hv);
            assert(marker_candidates(Some(dir@), hv) == seq![dir@] + tail) by {
                if at_home {
                    assert(seq![dir@] + Seq::<Seq<char>>::empty() =~= seq![dir@]);
                }
            }
        }
        out.push(dir);
        proof {
            assert(crate::config::strings_view(out@) =~= before.push(out@.last()@));
            assert(before + (seq![out@.last()@] + marker_candidates(opt_seq(next), hv)) =~= crate::config::strings_view(out@)
                + marker_candidates(opt_seq(next), hv));
        }
        current = next;
    }
    out
}

/// The vault assumed when no folder above a note is marked: the note's own
/// folder, or `.`.
pub fn vault_fallback(note: &str) -> (r: String)
    ensures
        r@ == match path_parent(note@) {
            Some(p) => p,
            None => "."@,
        },
{
    match parent(note) {
        Some(p) => p,
        None => ".".to_owned(),
    }
}

/// Whether a note keeps the vault remembered from the last run: it lies
/// inside it, and that vault is still a folder. Starting from a note deep in
/// the vault you were in should not make the note's folder a new vault.
pub fn keeps_remembered(note: &str, root: &str, root_is_dir: bool) -> (r: bool)
    ensures
        r == (path_starts_with(note@, root@) && root_is_dir),
{
    starts_with(note, root) && root_is_dir
}

/// Interprets the command-line argument, given whether it is a folder,
/// whether it exists, and the vault a note would open in.
pub fn resolve_target(path: String, is_dir: bool, exists: bool, vault: String) -> (r: Result<Target, String>)
    ensures
        is_dir ==> (r matches Ok(Target::Vault(p)) && p@ == path@),
        !is_dir && !exists ==> (r matches Err(e) && e@ == path@ + " does not exist"@),
        !is_dir && exists ==> (r matches Ok(Target::Note { vault: v, note: n }) && v@ == vault@ && n@ == path@),
{
    if is_dir {
        return Ok(Target::Vault(path));
    }
    if !exists {
        let mut e = path;
        append(&mut e, " does not exist");
        return Err(e);
    }
    Ok(Target::Note { vault, note: path })
}

} // verus!
