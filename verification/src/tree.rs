//! The file tree beside the notes.
//!
//! Directories are listed only when expanded, so opening a vault costs one
//! listing of the root no matter how large the vault is. Listings for
//! collapsed directories are dropped again to keep the resident set flat.
//! Reading a directory, with its ignore rules, is the caller's part: when the
//! rows need a listing the tree does not hold, it asks for it.

use vstd::prelude::*;

use crate::config::{lemma_without_absent, lemma_without_no_dup, str_eq, without};
use crate::index::chars_view;
use crate::palette::{rank, ranked};
use crate::paths::{
    lowercase, parent, path_key, path_key_of, path_parent, path_starts_with, same_path, starts_with, to_lowercase,
};
use crate::text::chars_of;

verus! {

/// One entry of a directory listing.
pub struct Child {
    pub path: String,
    pub name: String,
    pub is_dir: bool,
}

/// A listing entry as the contracts see it.
pub struct ChildView {
    pub path: Seq<char>,
    pub name: Seq<char>,
    pub is_dir: bool,
}

impl View for Child {
    type V = ChildView;

    open spec fn view(&self) -> ChildView {
        ChildView { path: self.path@, name: self.name@, is_dir: self.is_dir }
    }
}

pub open spec fn children_view(cs: Seq<Child>) -> Seq<ChildView> {
    cs.map_values(|c: Child| c@)
}

/// One visible line of the tree.
pub struct Row {
    pub path: String,
    pub name: String,
    pub depth: usize,
    pub is_dir: bool,
    pub expanded: bool,
}

/// A row as the contracts see it.
pub struct RowView {
    pub path: Seq<char>,
    pub name: Seq<char>,
    pub depth: usize,
    pub is_dir: bool,
    pub expanded: bool,
}

impl View for Row {
    type V = RowView;

    open spec fn view(&self) -> RowView {
        RowView {
            path: self.path@,
            name: self.name@,
            depth: self.depth,
            is_dir: self.is_dir,
            expanded: self.expanded,
        }
    }
}

pub open spec fn rows_view(rs: Seq<Row>) -> Seq<RowView> {
    rs.map_values(|r: Row| r@)
}

// ----------------------------------------------------------------- listing

/// Folders first, then by lower-case name; ties keep the listing's order.
pub open spec fn sorted_children(cs: Seq<ChildView>) -> Seq<ChildView> {
    let names = cs.map_values(|c: ChildView| lowercase(c.name));
    let keys = Seq::new(cs.len(), |k: int| ((if cs[k].is_dir { 1u64 } else { 0u64 }), k as usize));
    ranked(names, true, keys).map_values(|p: (u64, usize)| cs[p.1 as int])
}

/// Sorts a directory listing: folders first, then by lower-case name.
pub fn sort_children(children: &Vec<Child>) -> (r: Vec<Child>)
    ensures
        children_view(r@) == sorted_children(children_view(children@)),
{
    let ghost cv = children_view(children@);
    let mut names: Vec<Vec<char>> = Vec::new();
    let mut keys: Vec<(u64, usize)> = Vec::new();
    let mut k: usize = 0;
    while k < children.len()
        invariant
            k <= children@.len(),
            cv == children_view(children@),
            chars_view(names@) == cv.take(k as int).map_values(|c: ChildView| lowercase(c.name)),
            keys@ == Seq::new(k as nat, |m: int| ((if cv[m].is_dir { 1u64 } else { 0u64 }), m as usize)),
        decreases children@.len() - k,
    {
        let lower = to_lowercase(children[k].name.as_str());
        let ghost before = names@;
        names.push(chars_of(lower.as_str()));
        assert(chars_view(names@) =~= chars_view(before).push(names@.last()@));
        assert(cv.take(k + 1) =~= cv.take(k as int).push(cv[k as int]));
        assert(chars_view(names@) =~= cv.take(k + 1).map_values(|c: ChildView| lowercase(c.name)));
        let key: u64 = if children[k].is_dir {
            1
        } else {
            0
        };
        keys.push((key, k));
        assert(keys@ =~= Seq::new((k + 1) as nat, |m: int| ((if cv[m].is_dir { 1u64 } else { 0u64 }), m as usize)));
        k += 1;
    }
    assert(cv.take(k as int) =~= cv);
    proof {
        assert forall|m: int| 0 <= m < keys@.len() implies #[trigger] keys@[m].1 < names@.len() by {}
    }
    let order = rank(&names, true, &keys);
    proof {
        crate::palette::lemma_ranked_multiset(chars_view(names@), true, keys@);
    }
    let mut out: Vec<Child> = Vec::new();
    let mut m: usize = 0;
    while m < order.len()
        invariant
            m <= order@.len(),
            cv == children_view(children@),
            order@ == ranked(chars_view(names@), true, keys@),
            forall|a: int| 0 <= a < order@.len() ==> keys@.contains(#[trigger] order@[a]),
            keys@.len() == children@.len(),
            forall|a: int| 0 <= a < keys@.len() ==> #[trigger] keys@[a].1 == a,
            children_view(out@) == order@.take(m as int).map_values(|p: (u64, usize)| cv[p.1 as int]),
        decreases order@.len() - m,
    {
        let i = order[m].1;
        proof {
            let a = choose|a: int| 0 <= a < keys@.len() && keys@[a] == order@[m as int];
            assert(keys@[a].1 == a);
        }
        let c = &children[i];
        let ghost before = out@;
        out.push(Child { path: c.path.clone(), name: c.name.clone(), is_dir: c.is_dir });
        assert(children_view(out@) =~= children_view(before).push(out@.last()@));
        assert(order@.take(m + 1) =~= order@.take(m as int).push(order@[m as int]));
        assert(children_view(out@) =~= order@.take(m + 1).map_values(|p: (u64, usize)| cv[p.1 as int]));
        m += 1;
    }
    assert(order@.take(order@.len() as int) =~= order@);
    out
}

// -------------------------------------------------------------------- tree

pub struct FileTree {
    root: String,
    /// Expanded folders, each once.
    expanded: Vec<String>,
    /// The listings held, each folder once.
    listings: Vec<(String, Vec<Child>)>,
    rows: Vec<Row>,
    dirty: bool,
}

/// The tree as the contracts see it.
pub struct FileTreeView {
    pub root: Seq<char>,
    pub expanded: Seq<Seq<char>>,
    pub listings: Seq<(Seq<char>, Seq<ChildView>)>,
    pub rows: Seq<RowView>,
    pub dirty: bool,
}

pub open spec fn listings_view(ls: Seq<(String, Vec<Child>)>) -> Seq<(Seq<char>, Seq<ChildView>)> {
    ls.map_values(|l: (String, Vec<Child>)| (l.0@, children_view(l.1@)))
}

impl View for FileTree {
    type V = FileTreeView;

    closed spec fn view(&self) -> FileTreeView {
        FileTreeView {
            root: self.root@,
            expanded: crate::config::strings_view(self.expanded@),
            listings: listings_view(self.listings@),
            rows: rows_view(self.rows@),
            dirty: self.dirty,
        }
    }
}

/// The listing held for `dir`, if any.
pub open spec fn lookup(ls: Seq<(Seq<char>, Seq<ChildView>)>, dir: Seq<char>) -> Option<Seq<ChildView>>
    decreases ls.len(),
{
    if ls.len() == 0 {
        None
    } else if ls.last().0 == dir {
        Some(ls.last().1)
    } else {
        lookup(ls.drop_last(), dir)
    }
}

/// `ls` without the listing of `dir`.
pub open spec fn drop_listing(ls: Seq<(Seq<char>, Seq<ChildView>)>, dir: Seq<char>) -> Seq<(Seq<char>, Seq<ChildView>)>
    decreases ls.len(),
{
    if ls.len() == 0 {
        ls
    } else if ls.last().0 == dir {
        drop_listing(ls.drop_last(), dir)
    } else {
        drop_listing(ls.drop_last(), dir).push(ls.last())
    }
}

/// The rows under `dir`, at `depth`, in display order; or the first folder
/// whose listing is missing. `fuel` bounds the depth: a folder never holds
/// itself, so as many levels as there are listings always suffice.
pub open spec fn tree_rows(ls: Seq<(Seq<char>, Seq<ChildView>)>, ex: Seq<Seq<char>>, dir: Seq<char>, depth: nat, fuel: nat) -> Result<Seq<RowView>, Seq<char>>
    decreases fuel, 0nat,
{
    if fuel == 0 {
        Ok(Seq::empty())
    } else {
        match lookup(ls, path_key(dir)) {
            None => Err(dir),
            Some(cs) => child_rows(ls, ex, cs, depth, (fuel - 1) as nat),
        }
    }
}

/// The rows for the children `cs`, each followed by its own rows when it is
/// an expanded folder.
pub open spec fn child_rows(ls: Seq<(Seq<char>, Seq<ChildView>)>, ex: Seq<Seq<char>>, cs: Seq<ChildView>, depth: nat, fuel: nat) -> Result<Seq<RowView>, Seq<char>>
    decreases fuel, cs.len(),
{
    if cs.len() == 0 {
        Ok(Seq::empty())
    } else {
        match child_rows(ls, ex, cs.drop_last(), depth, fuel) {
            Err(e) => Err(e),
            Ok(prev) => {
                let c = cs.last();
                let open = c.is_dir && ex.contains(path_key(c.path));
                let row = RowView { path: c.path, name: c.name, depth: depth as usize, is_dir: c.is_dir, expanded: open };
                if open {
                    match tree_rows(ls, ex, c.path, depth + 1, fuel) {
                        Err(e) => Err(e),
                        Ok(sub) => Ok(prev.push(row) + sub),
                    }
                } else {
                    Ok(prev.push(row))
                }
            },
        }
    }
}

/// As many levels as there are listings, and one for the root.
pub open spec fn depth_budget(n: nat) -> nat {
    if n < usize::MAX {
        n + 1
    } else {
        n
    }
}

/// The rows of the whole tree, or the first folder whose listing is missing.
pub open spec fn all_rows(t: FileTreeView) -> Result<Seq<RowView>, Seq<char>> {
    tree_rows(t.listings, t.expanded, t.root, 0, depth_budget(t.listings.len()))
}

/// The folders expanded by revealing a path inside `dir`: `dir` and its
/// ancestors up to the root.
pub open spec fn revealed(ex: Seq<Seq<char>>, root: Seq<char>, dir: Seq<char>) -> Seq<Seq<char>>
    decreases dir.len(),
{
    if !path_starts_with(dir, root) && path_key(dir) != path_key(root) {
        ex
    } else {
        let ex2 = if ex.contains(path_key(dir)) {
            ex
        } else {
            ex.push(path_key(dir))
        };
        if path_key(dir) == path_key(root) {
            ex2
        } else {
            match path_parent(dir) {
                Some(p) => if p.len() < dir.len() {
                    revealed(ex2, root, p)
                } else {
                    ex2
                },
                None => ex2,
            }
        }
    }
}

impl FileTreeView {
    /// Each folder is expanded and listed at most once, and the rows held
    /// are current unless marked otherwise.
    pub open spec fn wf(self) -> bool {
        &&& self.expanded.no_duplicates()
        &&& forall|i: int, j: int| 0 <= i < j < self.listings.len() ==> #[trigger] self.listings[i].0 != #[trigger] self.listings[j].0
        &&& !self.dirty ==> all_rows(self) == Ok::<Seq<RowView>, Seq<char>>(self.rows)
    }
}

/// The tree after `path` is expanded or collapsed; a collapsed folder keeps
/// no listing.
pub open spec fn toggled(v: FileTreeView, path: Seq<char>) -> FileTreeView {
    let k = path_key(path);
    if v.expanded.contains(k) {
        FileTreeView { expanded: without(v.expanded, k), listings: drop_listing(v.listings, k), dirty: true, ..v }
    } else {
        FileTreeView { expanded: v.expanded.push(k), dirty: true, ..v }
    }
}

/// The tree after revealing `path`: every folder above it, up to the root,
/// is expanded.
pub open spec fn revealed_view(v: FileTreeView, path: Seq<char>) -> FileTreeView {
    let ex = match path_parent(path) {
        Some(d) => revealed(v.expanded, v.root, d),
        None => v.expanded,
    };
    FileTreeView { expanded: ex, dirty: true, ..v }
}

/// `v` without the listing of `dir`, if it held one.
pub open spec fn forget(v: FileTreeView, dir: Seq<char>) -> FileTreeView {
    if lookup(v.listings, path_key(dir)) is Some {
        FileTreeView { listings: drop_listing(v.listings, path_key(dir)), dirty: true, ..v }
    } else {
        v
    }
}

/// The tree after `path` changed on disk: the listings of its folder and of
/// itself are dropped.
pub open spec fn invalidated(v: FileTreeView, path: Seq<char>) -> FileTreeView {
    let v1 = match path_parent(path) {
        Some(p) => forget(v, p),
        None => v,
    };
    forget(v1, path)
}

/// The tree after the listing of `dir` is handed over.
pub open spec fn supplied(v: FileTreeView, dir: Seq<char>, cs: Seq<ChildView>) -> FileTreeView {
    FileTreeView { listings: drop_listing(v.listings, path_key(dir)).push((path_key(dir), sorted_children(cs))), dirty: true, ..v }
}

/// Expanding a folder and collapsing it again leaves the same folders
/// expanded.
pub proof fn law_toggle_round_trip(v: FileTreeView, path: Seq<char>)
    requires
        v.wf(),
        !v.expanded.contains(path_key(path)),
    ensures
        toggled(toggled(v, path), path).expanded == v.expanded,
{
    let k = path_key(path);
    let w = toggled(v, path);
    assert(w.expanded.contains(k)) by {
        assert(w.expanded[w.expanded.len() - 1] == k);
    }
    assert(without(v.expanded.push(k), k) == without(v.expanded, k)) by {
        assert(v.expanded.push(k).drop_last() =~= v.expanded);
    }
    lemma_without_absent(v.expanded, k);
}


pub proof fn lemma_drop_listing(ls: Seq<(Seq<char>, Seq<ChildView>)>, dir: Seq<char>)
    ensures
        lookup(drop_listing(ls, dir), dir) is None,
        drop_listing(ls, dir).len() <= ls.len(),
        forall|a: int| 0 <= a < drop_listing(ls, dir).len() ==> exists|b: int| 0 <= b < ls.len() && #[trigger] drop_listing(ls, dir)[a] == ls[b],
        (forall|i: int, j: int| 0 <= i < j < ls.len() ==> #[trigger] ls[i].0 != #[trigger] ls[j].0) ==> (forall|i: int, j: int| 0 <= i < j < drop_listing(ls, dir).len() ==> #[trigger] drop_listing(ls, dir)[i].0 != #[trigger] drop_listing(ls, dir)[j].0),
    decreases ls.len(),
{
    if ls.len() > 0 {
        let p = ls.drop_last();
        lemma_drop_listing(p, dir);
        let d = drop_listing(p, dir);
        assert forall|a: int| 0 <= a < d.len() implies exists|b: int| 0 <= b < ls.len() && #[trigger] d[a] == ls[b] by {
            let b = choose|b: int| 0 <= b < p.len() && d[a] == p[b];
            assert(ls[b] == p[b]);
        }
        if ls.last().0 != dir {
            let e = d.push(ls.last());
            assert(lookup(e, dir) == lookup(d, dir)) by {
                assert(e.drop_last() =~= d);
            }
            assert forall|a: int| 0 <= a < e.len() implies exists|b: int| 0 <= b < ls.len() && #[trigger] e[a] == ls[b] by {
                if a < d.len() {
                    let b = choose|b: int| 0 <= b < ls.len() && d[a] == ls[b];
                    assert(e[a] == ls[b]);
                } else {
                    assert(e[a] == ls[ls.len() - 1]);
                }
            }
            if forall|i: int, j: int| 0 <= i < j < ls.len() ==> #[trigger] ls[i].0 != #[trigger] ls[j].0 {
                assert(forall|i: int, j: int| 0 <= i < j < p.len() ==> #[trigger] p[i].0 != #[trigger] p[j].0) by {
                    assert forall|i: int, j: int| 0 <= i < j < p.len() implies #[trigger] p[i].0 != #[trigger] p[j].0 by {
                        assert(p[i] == ls[i] && p[j] == ls[j]);
                    }
                }
                assert forall|i: int, j: int| 0 <= i < j < e.len() implies #[trigger] e[i].0 != #[trigger] e[j].0 by {
                    if j == d.len() {
                        let b = choose|b: int| 0 <= b < p.len() && d[i] == p[b];
                        assert(p[b] == ls[b]);
                        assert(ls[b].0 != ls[ls.len() - 1].0);
                    } else {
                        assert(e[i] == d[i] && e[j] == d[j]);
                    }
                }
            }
        } else {
            if forall|i: int, j: int| 0 <= i < j < ls.len() ==> #[trigger] ls[i].0 != #[trigger] ls[j].0 {
                assert forall|i: int, j: int| 0 <= i < j < p.len() implies #[trigger] p[i].0 != #[trigger] p[j].0 by {
                    assert(p[i] == ls[i] && p[j] == ls[j]);
                }
            }
        }
    }
}

impl FileTree {
    pub fn new(root: String) -> (r: FileTree)
        ensures
            r@ == (FileTreeView {
                root: root@,
                expanded: Seq::empty(),
                listings: Seq::empty(),
                rows: Seq::empty(),
                dirty: true,
            }),
            r@.wf(),
    {
        let r = FileTree { root, expanded: Vec::new(), listings: Vec::new(), rows: Vec::new(), dirty: true };
        proof {
            assert(crate::config::strings_view(r.expanded@) =~= Seq::<Seq<char>>::empty());
            assert(listings_view(r.listings@) =~= Seq::<(Seq<char>, Seq<ChildView>)>::empty());
            assert(rows_view(r.rows@) =~= Seq::<RowView>::empty());
        }
        r
    }

    /// Where the listing of `dir` is held.
    fn find_listing(&self, dir: &str) -> (r: Option<usize>)
        ensures
            match r {
                Some(i) => i < self@.listings.len() && self@.listings[i as int].0 == dir@ && lookup(self@.listings, dir@) == Some(self@.listings[i as int].1),
                None => lookup(self@.listings, dir@) is None,
            },
    {
        let ghost ls = self@.listings;
        let mut j = self.listings.len();
        assert(ls.take(j as int) =~= ls);
        while j > 0
            invariant
                j <= self.listings.len(),
                ls == self@.listings,
                ls.len() == self.listings.len(),
                lookup(ls, dir@) == lookup(ls.take(j as int), dir@),
            decreases j,
        {
            assert(ls.take(j as int).drop_last() =~= ls.take(j - 1));
            assert(ls.take(j as int).last() == ls[j - 1]);
            if str_eq(self.listings[j - 1].0.as_str(), dir) {
                return Some(j - 1);
            }
            j -= 1;
        }
        None
    }

    fn is_expanded(&self, path: &str) -> (r: bool)
        ensures
            r == self@.expanded.contains(path@),
    {
        let mut i: usize = 0;
        while i < self.expanded.len()
            invariant
                i <= self.expanded.len(),
                self@.expanded.len() == self.expanded.len(),
                forall|j: int| 0 <= j < i ==> self@.expanded[j] != path@,
            decreases self.expanded.len() - i,
        {
            if str_eq(self.expanded[i].as_str(), path) {
                assert(self@.expanded[i as int] == path@);
                return true;
            }
            i += 1;
        }
        false
    }

    /// Drops the listing of `dir`; whether there was one.
    fn forget(&mut self, dir: &str) -> (r: bool)
        ensures
            r == (lookup(old(self)@.listings, dir@) is Some),
            final(self)@ == (FileTreeView { listings: drop_listing(old(self)@.listings, dir@), ..old(self)@ }),
    {
        let ghost ls = old(self)@.listings;
        let found = self.find_listing(dir).is_some();
        let mut rest: Vec<(String, Vec<Child>)> = Vec::new();
        std::mem::swap(&mut rest, &mut self.listings);
        let mut kept: Vec<(String, Vec<Child>)> = Vec::new();
        let ghost total = rest@.len();
        assert(ls.take(0) =~= Seq::<(Seq<char>, Seq<ChildView>)>::empty());
        assert(listings_view(rest@) =~= ls.skip(0));
        while rest.len() > 0
            invariant
                total == ls.len(),
                rest@.len() <= total,
                listings_view(rest@) == ls.skip(total - rest@.len()),
                listings_view(kept@) == drop_listing(ls.take(total - rest@.len()), dir@),
            decreases rest@.len(),
        {
            let ghost k: int = total - rest@.len();
            let ghost rv = rest@;
            let e = rest.remove(0);
            assert(listings_view(rest@) =~= listings_view(rv).drop_first());
            assert(ls.skip(k).drop_first() =~= ls.skip(k + 1));
            assert(listings_view(rv)[0] == ls[k]);
            assert(ls.take(k + 1).drop_last() =~= ls.take(k));
            assert(ls.take(k + 1).last() == ls[k]);
            if !str_eq(e.0.as_str(), dir) {
                let ghost before = kept@;
                kept.push(e);
                assert(listings_view(kept@) =~= listings_view(before).push(ls[k]));
            }
        }
        assert(ls.take(total as int) =~= ls);
        self.listings = kept;
        found
    }
}


impl FileTree {
    /// Expands a collapsed folder, or collapses an expanded one and drops
    /// its listing: re-reading on the next expand is cheaper than holding
    /// every subtree ever visited.
    pub fn toggle(&mut self, path: &str)
        requires
            old(self)@.wf(),
        ensures
            final(self)@ == toggled(old(self)@, path@),
            final(self)@.wf(),
    {
        let ghost v = old(self)@;
        let key = path_key_of(path);
        let path = key.as_str();
        if self.is_expanded(path) {
            let ghost ex = v.expanded;
            let mut rest: Vec<String> = Vec::new();
            std::mem::swap(&mut rest, &mut self.expanded);
            let mut kept: Vec<String> = Vec::new();
            let ghost total = rest@.len();
            assert(ex.take(0) =~= Seq::<Seq<char>>::empty());
            assert(crate::config::strings_view(rest@) =~= ex.skip(0));
            while rest.len() > 0
                invariant
                    total == ex.len(),
                    rest@.len() <= total,
                    crate::config::strings_view(rest@) == ex.skip(total - rest@.len()),
                    crate::config::strings_view(kept@) == without(ex.take(total - rest@.len()), path@),
                decreases rest@.len(),
            {
                let ghost k: int = total - rest@.len();
                let ghost rv = rest@;
                let e = rest.remove(0);
                assert(crate::config::strings_view(rest@) =~= crate::config::strings_view(rv).drop_first());
                assert(ex.skip(k).drop_first() =~= ex.skip(k + 1));
                assert(crate::config::strings_view(rv)[0] == ex[k]);
                assert(ex.take(k + 1).drop_last() =~= ex.take(k));
                assert(ex.take(k + 1).last() == ex[k]);
                if !str_eq(e.as_str(), path) {
                    let ghost before = kept@;
                    kept.push(e);
                    assert(crate::config::strings_view(kept@) =~= crate::config::strings_view(before).push(ex[k]));
                }
            }
            assert(ex.take(total as int) =~= ex);
            self.expanded = kept;
            self.forget(path);
            proof {
                lemma_without_no_dup(ex, path@);
                lemma_drop_listing(v.listings, path@);
            }
        } else {
            let ghost before = self.expanded@;
            self.expanded.push(path.to_owned());
            proof {
                assert(crate::config::strings_view(self.expanded@) =~= crate::config::strings_view(before).push(path@));
                let e = v.expanded.push(path@);
                assert forall|i: int, j: int| 0 <= i < e.len() && 0 <= j < e.len() && i != j implies e[i] != e[j] by {
                    if i == v.expanded.len() {
                        assert(v.expanded.contains(e[j]));
                    } else if j == v.expanded.len() {
                        assert(v.expanded.contains(e[i]));
                    }
                }
            }
        }
        self.dirty = true;
    }

    /// Expands every folder above `path`, up to the root, so it becomes
    /// visible.
    pub fn reveal_path(&mut self, path: &str)
        requires
            old(self)@.wf(),
        ensures
            final(self)@ == revealed_view(old(self)@, path@),
            final(self)@.wf(),
    {
        let ghost v = old(self)@;
        let ghost target = revealed_view(v, path@).expanded;
        let mut current = parent(path);
        loop
            invariant
                self@ == (FileTreeView { expanded: self@.expanded, ..v }),
                self@.expanded.no_duplicates(),
                target == match current {
                    Some(d) => revealed(self@.expanded, v.root, d@),
                    None => self@.expanded,
                },
            ensures
                current is None,
                target == self@.expanded,
                self@ == (FileTreeView { expanded: self@.expanded, ..v }),
                self@.expanded.no_duplicates(),
            decreases match current {
                Some(d) => d@.len() + 1,
                None => 0,
            },
        {
            if current.is_none() {
                break;
            }
            let dir = current.unwrap();
            let inside = starts_with(dir.as_str(), self.root.as_str());
            let is_root = same_path(dir.as_str(), self.root.as_str());
            if !inside && !is_root {
                current = None;
                continue;
            }
            let ghost eb = self@.expanded;
            let key = path_key_of(dir.as_str());
            if !self.is_expanded(key.as_str()) {
                let ghost before = self.expanded@;
                self.expanded.push(key.clone());
                proof {
                    assert(crate::config::strings_view(self.expanded@) =~= crate::config::strings_view(before).push(key@));
                    let e = eb.push(key@);
                    assert forall|i: int, j: int| 0 <= i < e.len() && 0 <= j < e.len() && i != j implies e[i] != e[j] by {
                        if i == eb.len() {
                            assert(eb.contains(e[j]));
                        } else if j == eb.len() {
                            assert(eb.contains(e[i]));
                        }
                    }
                }
            }
            proof {
                let ex2 = if eb.contains(path_key(dir@)) {
                    eb
                } else {
                    eb.push(path_key(dir@))
                };
                assert(self@.expanded == ex2);
            }
            if is_root {
                current = None;
            } else {
                current = parent(dir.as_str());
            }
        }
        self.dirty = true;
    }

    /// Drops the cached listings of whichever folder `path` lives in, and of
    /// `path` itself.
    pub fn invalidate(&mut self, path: &str)
        requires
            old(self)@.wf(),
        ensures
            final(self)@ == invalidated(old(self)@, path@),
            final(self)@.wf(),
    {
        match parent(path) {
            Some(p) => {
                self.forget_held(p.as_str());
            },
            None => {},
        }
        self.forget_held(path);
    }

    /// Drops the listing of `dir`, if one is held.
    fn forget_held(&mut self, dir: &str)
        requires
            old(self)@.wf(),
        ensures
            final(self)@ == forget(old(self)@, dir@),
            final(self)@.wf(),
    {
        let ghost v = old(self)@;
        let key = path_key_of(dir);
        if self.forget(key.as_str()) {
            self.dirty = true;
        } else {
            proof {
                lemma_drop_absent(v.listings, key@);
            }
        }
        proof {
            lemma_drop_listing(v.listings, key@);
        }
    }

    /// Hands over the listing of `dir`, as it was read; it is kept sorted,
    /// folders first, then by lower-case name.
    pub fn supply(&mut self, dir: &str, children: Vec<Child>)
        requires
            old(self)@.wf(),
        ensures
            final(self)@ == supplied(old(self)@, dir@, children_view(children@)),
            final(self)@.wf(),
    {
        let ghost v = old(self)@;
        let sorted = sort_children(&children);
        let key = path_key_of(dir);
        let dir = key.as_str();
        self.forget(dir);
        let ghost mid = self@.listings;
        let ghost before = self.listings@;
        self.listings.push((dir.to_owned(), sorted));
        self.dirty = true;
        proof {
            assert(listings_view(self.listings@) =~= listings_view(before).push((dir@, sorted_children(children_view(children@)))));
            lemma_drop_listing(v.listings, dir@);
            let e = self@.listings;
            assert forall|i: int, j: int| 0 <= i < j < e.len() implies #[trigger] e[i].0 != #[trigger] e[j].0 by {
                if j == mid.len() {
                    if e[i].0 == dir@ {
                        lemma_lookup_found(mid, i);
                    }
                } else {
                    assert(e[i] == mid[i] && e[j] == mid[j]);
                }
            }
        }
    }
}

/// Once the rows of some children run into a missing listing, so do the
/// rows of all of them, on the same folder.
pub proof fn lemma_child_rows_err(ls: Seq<(Seq<char>, Seq<ChildView>)>, ex: Seq<Seq<char>>, cs: Seq<ChildView>, n: nat, depth: nat, fuel: nat)
    requires
        n <= cs.len(),
        child_rows(ls, ex, cs.take(n as int), depth, fuel) is Err,
    ensures
        child_rows(ls, ex, cs, depth, fuel) == child_rows(ls, ex, cs.take(n as int), depth, fuel),
    decreases cs.len() - n,
{
    if n < cs.len() {
        assert(cs.take(n + 1int).drop_last() =~= cs.take(n as int));
        lemma_child_rows_err(ls, ex, cs, n + 1, depth, fuel);
    } else {
        assert(cs.take(n as int) =~= cs);
    }
}

/// Dropping a listing that is not held changes nothing.
pub proof fn lemma_drop_absent(ls: Seq<(Seq<char>, Seq<ChildView>)>, dir: Seq<char>)
    requires
        lookup(ls, dir) is None,
    ensures
        drop_listing(ls, dir) == ls,
    decreases ls.len(),
{
    if ls.len() > 0 {
        lemma_drop_absent(ls.drop_last(), dir);
        assert(ls.drop_last().push(ls.last()) =~= ls);
    }
}

/// A listing that is held is found.
pub proof fn lemma_lookup_found(ls: Seq<(Seq<char>, Seq<ChildView>)>, i: int)
    requires
        0 <= i < ls.len(),
    ensures
        lookup(ls, ls[i].0) is Some,
    decreases ls.len(),
{
    if ls.last().0 != ls[i].0 {
        assert(i != ls.len() - 1);
        assert(ls.drop_last()[i] == ls[i]);
        lemma_lookup_found(ls.drop_last(), i);
    }
}


impl FileTree {
    /// Appends the rows under `dir` to `out`; or names the first folder
    /// whose listing is missing.
    fn push_rows(&self, dir: &str, depth: usize, fuel: usize, out: &mut Vec<Row>) -> (r: Option<String>)
        requires
            depth + fuel <= usize::MAX,
        ensures
            match tree_rows(self@.listings, self@.expanded, dir@, depth as nat, fuel as nat) {
                Ok(rs) => r is None && rows_view(final(out)@) == rows_view(old(out)@) + rs,
                Err(e) => r matches Some(m) && m@ == e,
            },
        decreases fuel,
    {
        if fuel == 0 {
            assert(rows_view(out@) + Seq::<RowView>::empty() =~= rows_view(out@));
            return None;
        }
        let key = path_key_of(dir);
        let i = match self.find_listing(key.as_str()) {
            Some(i) => i,
            None => {
                return Some(dir.to_owned());
            },
        };
        let cs = &self.listings[i].1;
        let ghost cv = children_view(cs@);
        assert(cv == self@.listings[i as int].1);
        let ghost base = rows_view(out@);
        let ghost acc: Seq<RowView> = Seq::empty();
        let mut k: usize = 0;
        assert(cv.take(0) =~= Seq::<ChildView>::empty());
        assert(base + acc =~= base);
        while k < cs.len()
            invariant
                k <= cs@.len(),
                cv == children_view(cs@),
                depth + fuel <= usize::MAX,
                fuel > 0,
                lookup(self@.listings, path_key(dir@)) == Some(cv),
                child_rows(self@.listings, self@.expanded, cv.take(k as int), depth as nat, (fuel - 1) as nat) == Ok::<Seq<RowView>, Seq<char>>(acc),
                rows_view(out@) == base + acc,
            decreases cs@.len() - k,
        {
            let c = &cs[k];
            let open = c.is_dir && self.is_expanded(path_key_of(c.path.as_str()).as_str());
            let ghost before = out@;
            out.push(Row { path: c.path.clone(), name: c.name.clone(), depth, is_dir: c.is_dir, expanded: open });
            let ghost row = out@.last()@;
            assert(rows_view(out@) =~= rows_view(before).push(row));
            assert(cv.take(k + 1).drop_last() =~= cv.take(k as int));
            assert(cv.take(k + 1).last() == cv[k as int]);
            if open {
                let ghost mid = rows_view(out@);
                match self.push_rows(c.path.as_str(), depth + 1, fuel - 1, out) {
                    Some(missing) => {
                        proof {
                            lemma_child_rows_err(self@.listings, self@.expanded, cv, (k + 1) as nat, depth as nat, (fuel - 1) as nat);
                        }
                        return Some(missing);
                    },
                    None => {},
                }
                proof {
                    let sub = tree_rows(self@.listings, self@.expanded, c.path@, (depth + 1) as nat, (fuel - 1) as nat)->Ok_0;
                    assert(rows_view(out@) == mid + sub);
                    assert(mid == base + acc.push(row));
                    acc = acc.push(row) + sub;
                    assert(rows_view(out@) =~= base + acc);
                }
            } else {
                proof {
                    acc = acc.push(row);
                    assert(rows_view(out@) =~= base + acc);
                }
            }
            k += 1;
        }
        assert(cv.take(cs@.len() as int) =~= cv);
        None
    }

    /// Visible rows, rebuilt only when something changed; or the first
    /// folder whose listing the caller has to read and hand over with
    /// [`Self::supply`] first.
    pub fn rows(&mut self) -> (r: Result<&Vec<Row>, String>)
        requires
            old(self)@.wf(),
        ensures
            final(self)@.wf(),
            match all_rows(old(self)@) {
                Ok(rs) => r matches Ok(v) && rows_view(v@) == rs && final(self)@ == (FileTreeView {
                    rows: rs,
                    dirty: false,
                    ..old(self)@
                }),
                Err(d) => r matches Err(m) && m@ == d && final(self)@ == old(self)@,
            },
    {
        if self.dirty {
            let fuel = if self.listings.len() < usize::MAX {
                self.listings.len() + 1
            } else {
                self.listings.len()
            };
            let mut rows: Vec<Row> = Vec::new();
            let root = self.root.clone();
            match self.push_rows(root.as_str(), 0, fuel, &mut rows) {
                Some(missing) => {
                    return Err(missing);
                },
                None => {},
            }
            assert(rows_view(rows@) =~= Seq::<RowView>::empty() + rows_view(rows@));
            self.rows = rows;
            self.dirty = false;
        }
        Ok(&self.rows)
    }
}

} // verus!
