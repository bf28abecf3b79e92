//! Splits: a binary tree of panes, each owning its own tabs.
//!
//! The window is one pane until you split it. A split is a node with two
//! children and a ratio; the leaves are panes, and a pane is a tab strip plus
//! whatever its active tab shows. Splitting *moves* the current tab into the
//! new pane rather than duplicating it, so a document is never open twice and
//! the pane you came from falls back to the tab on its left.
//!
//! Ratios are kept in ten-thousandths of the parent, so the tree itself holds
//! no floating point; turning it into rectangles is the painter's part.

use vstd::prelude::*;
use vstd::multiset::Multiset;

use crate::document::Document;
use crate::paths::path_key;

verus! {

pub type PaneId = u64;

/// A ratio of one whole, in ten-thousandths.
pub const RATIO_SCALE: u32 = 10000;
/// A split never collapses either of its sides completely.
pub const MIN_RATIO: u32 = 800;
/// The ratio of a fresh split.
pub const HALF: u32 = 5000;

/// Which way a split's two children sit next to each other.
#[derive(Debug, Clone, Copy, PartialEq, Eq, Structural)]
pub enum Axis {
    /// Side by side, divided by a vertical line, like vim's `:vsplit`.
    Row,
    /// Stacked, divided by a horizontal line, like vim's `:split`.
    Column,
}

/// A direction the focus can travel in, from `ctrl+h/j/k/l`.
#[derive(Debug, Clone, Copy, PartialEq, Eq, Structural)]
pub enum Dir {
    Left,
    Right,
    Up,
    Down,
}

pub open spec fn dir_axis(d: Dir) -> Axis {
    match d {
        Dir::Left | Dir::Right => Axis::Row,
        Dir::Up | Dir::Down => Axis::Column,
    }
}

impl Dir {
    /// The axis a split has to be on for this direction to cross it.
    pub fn axis(self) -> (r: Axis)
        ensures
            r == dir_axis(self),
    {
        match self {
            Dir::Left | Dir::Right => Axis::Row,
            Dir::Up | Dir::Down => Axis::Column,
        }
    }
}

// ------------------------------------------------------------------- panes

/// One pane: a strip of tabs and the one it shows.
pub struct Pane {
    pub id: PaneId,
    pub tabs: Vec<Document>,
    /// Index into `tabs`; meaningless while `tabs` is empty.
    pub active: usize,
}

/// A pane as the contracts see it.
pub struct PaneView {
    pub id: PaneId,
    pub tabs: Seq<Document>,
    pub active: usize,
}

impl View for Pane {
    type V = PaneView;

    open spec fn view(&self) -> PaneView {
        PaneView { id: self.id, tabs: self.tabs@, active: self.active }
    }
}

pub open spec fn min_int(a: int, b: int) -> int {
    if a < b {
        a
    } else {
        b
    }
}

/// The active tab after removing tab `index`, with `left` tabs remaining:
/// the one to the left of the removed tab takes over.
pub open spec fn active_after_take(active: usize, index: usize, left: nat) -> usize {
    let a: int = if active > index {
        active - 1
    } else if active == index {
        if index > 0 {
            index - 1
        } else {
            0
        }
    } else {
        active as int
    };
    let cap: int = if left > 0 {
        left - 1
    } else {
        0
    };
    min_int(a, cap) as usize
}

/// `p` after its tab `index` is taken out; unchanged when there is none.
pub open spec fn taken(p: PaneView, index: usize) -> PaneView {
    if index < p.tabs.len() {
        PaneView {
            id: p.id,
            tabs: p.tabs.remove(index as int),
            active: active_after_take(p.active, index, (p.tabs.len() - 1) as nat),
        }
    } else {
        p
    }
}

/// `p` with `doc` inserted at `at`, or at the end when `at` is past it, and
/// shown.
pub open spec fn put_at(p: PaneView, doc: Document, at: usize) -> PaneView {
    let at = min_int(at as int, p.tabs.len() as int);
    PaneView { id: p.id, tabs: p.tabs.insert(at, doc), active: at as usize }
}

/// `p` with `tabs` appended, its own current tab kept where it has one.
pub open spec fn adopted(p: PaneView, tabs: Seq<Document>) -> PaneView {
    let all = p.tabs + tabs;
    let a: int = if p.tabs.len() == 0 {
        0
    } else {
        p.active as int
    };
    let cap: int = if all.len() > 0 {
        all.len() - 1
    } else {
        0
    };
    PaneView { id: p.id, tabs: all, active: min_int(a, cap) as usize }
}

/// `p` showing its next (or previous) tab, wrapping around at the ends;
/// unchanged when it has fewer than two tabs.
pub open spec fn cycled(p: PaneView, forward: bool) -> PaneView {
    let len = p.tabs.len();
    if len < 2 {
        p
    } else if forward {
        PaneView { active: ((p.active + 1) % (len as int)) as usize, ..p }
    } else {
        PaneView { active: ((p.active + len - 1) % (len as int)) as usize, ..p }
    }
}

/// `p` with only its current tab left; unchanged when it shows none.
pub open spec fn kept_current(p: PaneView) -> PaneView {
    if p.active < p.tabs.len() {
        PaneView { id: p.id, tabs: seq![p.tabs[p.active as int]], active: 0 }
    } else {
        p
    }
}

/// Tab `i` is the first of `tabs` that holds the file at `path`, paths
/// compared component by component.
pub open spec fn first_tab_of(tabs: Seq<Document>, path: Seq<char>, i: int) -> bool {
    &&& 0 <= i < tabs.len()
    &&& path_key(tabs[i].path@) == path_key(path)
    &&& forall|j: int| 0 <= j < i ==> path_key(tabs[j].path@) != path_key(path)
}

/// Some tab of `tabs` holds the file at `path`.
pub open spec fn holds_path(tabs: Seq<Document>, path: Seq<char>) -> bool {
    exists|i: int| 0 <= i < tabs.len() && path_key(tabs[i].path@) == path_key(path)
}

impl Pane {
    fn new(id: PaneId) -> (r: Pane)
        ensures
            r@ == (PaneView { id, tabs: Seq::empty(), active: 0 }),
    {
        Pane { id, tabs: Vec::new(), active: 0 }
    }

    /// The document the pane shows, if any.
    pub fn doc(&self) -> (r: Option<&Document>)
        ensures
            match r {
                Some(d) => self.active < self.tabs@.len() && *d == self.tabs@[self.active as int],
                None => self.active >= self.tabs@.len(),
            },
    {
        if self.active < self.tabs.len() {
            Some(&self.tabs[self.active])
        } else {
            None
        }
    }

    /// The document the pane shows, for changing it in place.
    pub fn doc_mut(&mut self) -> (r: Option<&mut Document>)
        ensures
            match r {
                Some(d) => {
                    &&& old(self).active < old(self).tabs@.len()
                    &&& *d == old(self).tabs@[old(self).active as int]
                    &&& final(self).tabs@ == old(self).tabs@.update(old(self).active as int, *final(d))
                    &&& final(self).id == old(self).id
                    &&& final(self).active == old(self).active
                },
                None => {
                    &&& old(self).active >= old(self).tabs@.len()
                    &&& final(self)@ == old(self)@
                },
            },
    {
        if self.active < self.tabs.len() {
            let a = self.active;
            Some(&mut self.tabs[a])
        } else {
            None
        }
    }

    /// Removes a tab, leaving the one to its left active.
    ///
    /// That is what makes `ctrl+w v` read the way it does: the current tab
    /// moves into the new pane, and the pane it left shows its neighbour.
    pub fn take(&mut self, index: usize) -> (r: Option<Document>)
        ensures
            final(self)@ == taken(old(self)@, index),
            r == (if index < old(self).tabs@.len() {
                Some(old(self).tabs@[index as int])
            } else {
                None
            }),
    {
        if index >= self.tabs.len() {
            return None;
        }
        let doc = self.tabs.remove(index);
        let a: usize = if self.active > index {
            self.active - 1
        } else if self.active == index {
            if index > 0 {
                index - 1
            } else {
                0
            }
        } else {
            self.active
        };
        let cap: usize = if self.tabs.len() > 0 {
            self.tabs.len() - 1
        } else {
            0
        };
        self.active = if a < cap {
            a
        } else {
            cap
        };
        Some(doc)
    }

    /// Inserts `doc` at `at` (or at the end) and shows it; returns where.
    pub fn put(&mut self, doc: Document, at: usize) -> (r: usize)
        ensures
            final(self)@ == put_at(old(self)@, doc, at),
            r == final(self).active,
    {
        let at = if at < self.tabs.len() {
            at
        } else {
            self.tabs.len()
        };
        self.tabs.insert(at, doc);
        self.active = at;
        at
    }

    /// Shows tab `index`, if the pane has one.
    pub fn select(&mut self, index: usize)
        ensures
            final(self)@ == if index < old(self).tabs@.len() {
                PaneView { active: index, ..old(self)@ }
            } else {
                old(self)@
            },
    {
        if index < self.tabs.len() {
            self.active = index;
        }
    }

    /// Shows the next tab, or the previous one, wrapping around at the ends.
    pub fn cycle_tab(&mut self, forward: bool)
        requires
            old(self).active + old(self).tabs@.len() <= usize::MAX,
        ensures
            final(self)@ == cycled(old(self)@, forward),
    {
        let len = self.tabs.len();
        if len < 2 {
            return;
        }
        self.active = if forward {
            (self.active + 1) % len
        } else {
            (self.active + len - 1) % len
        };
    }

    /// Closes every tab but the current one.
    pub fn close_others(&mut self)
        ensures
            final(self)@ == kept_current(old(self)@),
    {
        let at = self.active;
        if at < self.tabs.len() {
            let keep = self.tabs.remove(at);
            let mut rest: Vec<Document> = Vec::new();
            rest.push(keep);
            self.tabs = rest;
            self.active = 0;
            assert(self.tabs@ =~= seq![old(self).tabs@[at as int]]);
        }
    }

    /// Closes every tab.
    pub fn clear(&mut self)
        ensures
            final(self)@ == (PaneView { id: old(self).id, tabs: Seq::empty(), active: 0 }),
    {
        self.tabs = Vec::new();
        self.active = 0;
    }

    /// Shows the first tab that holds the file at `path`, if there is one,
    /// and says whether there was.
    pub fn show_path(&mut self, path: &str) -> (r: bool)
        ensures
            r == holds_path(old(self).tabs@, path@),
            r ==> final(self).id == old(self).id && final(self).tabs@ == old(self).tabs@
                && first_tab_of(old(self).tabs@, path@, final(self).active as int),
            !r ==> final(self)@ == old(self)@,
    {
        let key = crate::paths::path_key_of(path);
        let mut i: usize = 0;
        while i < self.tabs.len()
            invariant
                i <= self.tabs@.len(),
                *self == *old(self),
                key@ == path_key(path@),
                forall|j: int| 0 <= j < i ==> path_key(self.tabs@[j].path@) != path_key(path@),
            decreases self.tabs@.len() - i,
        {
            let tab = crate::paths::path_key_of(self.tabs[i].path.as_str());
            if crate::config::str_eq(tab.as_str(), key.as_str()) {
                self.active = i;
                return true;
            }
            i = i + 1;
        }
        false
    }

    /// Appends `tabs`, keeping the pane's own current tab where it has one.
    fn adopt(&mut self, tabs: Vec<Document>)
        ensures
            final(self)@ == adopted(old(self)@, tabs@),
    {
        let was_empty = self.tabs.len() == 0;
        let mut tabs = tabs;
        self.tabs.append(&mut tabs);
        if was_empty {
            self.active = 0;
        }
        let cap: usize = if self.tabs.len() > 0 {
            self.tabs.len() - 1
        } else {
            0
        };
        if self.active > cap {
            self.active = cap;
        }
    }
}

// -------------------------------------------------------------------- tree

/// The layout tree. Splits are interior nodes; panes are the leaves.
pub enum Node {
    Leaf(PaneId),
    Split {
        axis: Axis,
        /// Share of the parent given to `first`, in ten-thousandths.
        ratio: u32,
        first: Box<Node>,
        second: Box<Node>,
    },
}

impl Node {
    /// The panes, in layout order: left to right and top to bottom.
    pub open spec fn leaves(self) -> Seq<PaneId>
        decreases self,
    {
        match self {
            Node::Leaf(id) => seq![id],
            Node::Split { first, second, .. } => first.leaves() + second.leaves(),
        }
    }

    /// Every ratio keeps both sides of its split in view.
    pub open spec fn ratios_ok(self) -> bool
        decreases self,
    {
        match self {
            Node::Leaf(_) => true,
            Node::Split { ratio, first, second, .. } => {
                &&& MIN_RATIO <= ratio <= RATIO_SCALE - MIN_RATIO
                &&& first.ratios_ok()
                &&& second.ratios_ok()
            },
        }
    }

    /// How many splits the tree has.
    pub open spec fn splits(self) -> nat
        decreases self,
    {
        match self {
            Node::Leaf(_) => 0,
            Node::Split { first, second, .. } => 1 + first.splits() + second.splits(),
        }
    }

    /// The tree with `target`'s leaf replaced by a fresh split of `target`
    /// and `new`.
    pub open spec fn split_m(self, target: PaneId, axis: Axis, new: PaneId) -> Node
        decreases self,
    {
        match self {
            Node::Leaf(id) => if id == target {
                Node::Split {
                    axis,
                    ratio: HALF,
                    first: Box::new(Node::Leaf(target)),
                    second: Box::new(Node::Leaf(new)),
                }
            } else {
                self
            },
            Node::Split { axis: a, ratio, first, second } => if first.leaves().contains(target) {
                Node::Split {
                    axis: a,
                    ratio,
                    first: Box::new(first.split_m(target, axis, new)),
                    second,
                }
            } else {
                Node::Split {
                    axis: a,
                    ratio,
                    first,
                    second: Box::new(second.split_m(target, axis, new)),
                }
            },
        }
    }

    /// The subtree that would take over if `id` went away.
    pub open spec fn sibling_m(self, id: PaneId) -> Option<Node>
        decreases self,
    {
        match self {
            Node::Leaf(_) => None,
            Node::Split { first, second, .. } => if first.leaves().contains(id) {
                match first.sibling_m(id) {
                    Some(s) => Some(s),
                    None => Some(*second),
                }
            } else if second.leaves().contains(id) {
                match second.sibling_m(id) {
                    Some(s) => Some(s),
                    None => Some(*first),
                }
            } else {
                None
            },
        }
    }

    /// The tree without `id`'s leaf, the split it was half of collapsed.
    pub open spec fn without_m(self, id: PaneId) -> Option<Node>
        decreases self,
    {
        match self {
            Node::Leaf(l) => if l != id {
                Some(Node::Leaf(l))
            } else {
                None
            },
            Node::Split { axis, ratio, first, second } => match (
                first.without_m(id),
                second.without_m(id),
            ) {
                (Some(f), Some(s)) => Some(
                    Node::Split { axis, ratio, first: Box::new(f), second: Box::new(s) },
                ),
                (Some(o), None) => Some(o),
                (None, Some(o)) => Some(o),
                (None, None) => None,
            },
        }
    }

    /// The tree with the ratio of split `k`, counted in pre-order, set.
    pub open spec fn with_ratio(self, k: int, r: u32) -> Node
        decreases self,
    {
        match self {
            Node::Leaf(_) => self,
            Node::Split { axis, ratio, first, second } => if k == 0 {
                Node::Split { axis, ratio: r, first, second }
            } else if k - 1 < first.splits() {
                Node::Split { axis, ratio, first: Box::new(first.with_ratio(k - 1, r)), second }
            } else {
                Node::Split {
                    axis,
                    ratio,
                    first,
                    second: Box::new(second.with_ratio(k - 1 - first.splits(), r)),
                }
            },
        }
    }

    /// The tree with every split even.
    pub open spec fn equalized(self) -> Node
        decreases self,
    {
        match self {
            Node::Leaf(_) => self,
            Node::Split { axis, first, second, .. } => Node::Split {
                axis,
                ratio: HALF,
                first: Box::new(first.equalized()),
                second: Box::new(second.equalized()),
            },
        }
    }

    pub proof fn lemma_leaves_nonempty(self)
        ensures
            self.leaves().len() >= 1,
        decreases self,
    {
        if let Node::Split { first, second, .. } = self {
            first.lemma_leaves_nonempty();
            second.lemma_leaves_nonempty();
        }
    }

    fn holds(&self, id: PaneId) -> (r: bool)
        ensures
            r == self.leaves().contains(id),
        decreases self,
    {
        match self {
            Node::Leaf(leaf) => {
                assert(seq![*leaf][0] == *leaf);
                *leaf == id
            },
            Node::Split { first, second, .. } => {
                let r = first.holds(id) || second.holds(id);
                proof {
                    lemma_concat_contains(first.leaves(), second.leaves(), id);
                }
                r
            },
        }
    }

    fn first_leaf(&self) -> (r: PaneId)
        ensures
            self.leaves().len() >= 1,
            r == self.leaves()[0],
        decreases self,
    {
        proof {
            self.lemma_leaves_nonempty();
        }
        match self {
            Node::Leaf(id) => *id,
            Node::Split { first, second, .. } => {
                let r = first.first_leaf();
                proof {
                    second.lemma_leaves_nonempty();
                }
                r
            },
        }
    }

    fn collect(&self, out: &mut Vec<PaneId>)
        ensures
            final(out)@ == old(out)@ + self.leaves(),
        decreases self,
    {
        match self {
            Node::Leaf(id) => {
                out.push(*id);
            },
            Node::Split { first, second, .. } => {
                first.collect(out);
                second.collect(out);
                assert(old(out)@ + first.leaves() + second.leaves() =~= old(out)@ + (first.leaves()
                    + second.leaves()));
            },
        }
    }

    fn split(self, target: PaneId, axis: Axis, new: PaneId) -> (r: Node)
        ensures
            r == self.split_m(target, axis, new),
        decreases self,
    {
        match self {
            Node::Leaf(id) => if id == target {
                Node::Split {
                    axis,
                    ratio: HALF,
                    first: Box::new(Node::Leaf(target)),
                    second: Box::new(Node::Leaf(new)),
                }
            } else {
                Node::Leaf(id)
            },
            Node::Split { axis: a, ratio, first, second } => {
                if first.holds(target) {
                    let f = (*first).split(target, axis, new);
                    Node::Split { axis: a, ratio, first: Box::new(f), second }
                } else {
                    let s = (*second).split(target, axis, new);
                    Node::Split { axis: a, ratio, first, second: Box::new(s) }
                }
            },
        }
    }

    /// The first pane of the subtree that would take over if `id` went away.
    fn heir(&self, id: PaneId) -> (r: Option<PaneId>)
        ensures
            r == (match self.sibling_m(id) {
                Some(s) => Some(s.leaves()[0]),
                None => None,
            }),
        decreases self,
    {
        match self {
            Node::Leaf(_) => None,
            Node::Split { first, second, .. } => {
                if first.holds(id) {
                    match first.heir(id) {
                        Some(h) => Some(h),
                        None => Some(second.first_leaf()),
                    }
                } else if second.holds(id) {
                    match second.heir(id) {
                        Some(h) => Some(h),
                        None => Some(first.first_leaf()),
                    }
                } else {
                    None
                }
            },
        }
    }

    fn without(self, id: PaneId) -> (r: Option<Node>)
        ensures
            r == self.without_m(id),
        decreases self,
    {
        match self {
            Node::Leaf(l) => if l != id {
                Some(Node::Leaf(l))
            } else {
                None
            },
            Node::Split { axis, ratio, first, second } => {
                let f = (*first).without(id);
                let s = (*second).without(id);
                match (f, s) {
                    (Some(f), Some(s)) => Some(
                        Node::Split { axis, ratio, first: Box::new(f), second: Box::new(s) },
                    ),
                    (Some(o), None) => Some(o),
                    (None, Some(o)) => Some(o),
                    (None, None) => None,
                }
            },
        }
    }

    fn count_splits(&self) -> (r: usize)
        requires
            self.splits() <= usize::MAX,
        ensures
            r == self.splits(),
        decreases self,
    {
        match self {
            Node::Leaf(_) => 0,
            Node::Split { first, second, .. } => 1 + first.count_splits() + second.count_splits(),
        }
    }

    fn set_ratio(self, k: usize, r: u32) -> (n: Node)
        requires
            self.splits() <= usize::MAX,
        ensures
            n == self.with_ratio(k as int, r),
        decreases self,
    {
        match self {
            Node::Leaf(id) => Node::Leaf(id),
            Node::Split { axis, ratio, first, second } => {
                if k == 0 {
                    Node::Split { axis, ratio: r, first, second }
                } else {
                    let before = first.count_splits();
                    if k - 1 < before {
                        let f = (*first).set_ratio(k - 1, r);
                        Node::Split { axis, ratio, first: Box::new(f), second }
                    } else {
                        let s = (*second).set_ratio(k - 1 - before, r);
                        Node::Split { axis, ratio, first, second: Box::new(s) }
                    }
                }
            },
        }
    }

    fn equalize(self) -> (n: Node)
        ensures
            n == self.equalized(),
        decreases self,
    {
        match self {
            Node::Leaf(id) => Node::Leaf(id),
            Node::Split { axis, first, second, .. } => {
                let f = (*first).equalize();
                let s = (*second).equalize();
                Node::Split { axis, ratio: HALF, first: Box::new(f), second: Box::new(s) }
            },
        }
    }
}

pub proof fn lemma_concat_contains(a: Seq<PaneId>, b: Seq<PaneId>, x: PaneId)
    ensures
        (a + b).contains(x) <==> a.contains(x) || b.contains(x),
{
    if a.contains(x) {
        let i = choose|i: int| 0 <= i < a.len() && a[i] == x;
        assert((a + b)[i] == x);
    }
    if b.contains(x) {
        let i = choose|i: int| 0 <= i < b.len() && b[i] == x;
        assert((a + b)[a.len() + i] == x);
    }
    if (a + b).contains(x) {
        let i = choose|i: int| 0 <= i < (a + b).len() && (a + b)[i] == x;
        if i < a.len() {
            assert(a[i] == x);
        } else {
            assert(b[i - a.len()] == x);
        }
    }
}

// ------------------------------------------------------------ tree lemmas

/// `s` with `new` placed right after each `t`.
pub open spec fn spread(s: Seq<PaneId>, t: PaneId, new: PaneId) -> Seq<PaneId>
    decreases s.len(),
{
    if s.len() == 0 {
        Seq::empty()
    } else {
        spread(s.drop_last(), t, new) + (if s.last() == t {
            seq![t, new]
        } else {
            seq![s.last()]
        })
    }
}

/// `s` without any `id`.
pub open spec fn drop_id(s: Seq<PaneId>, id: PaneId) -> Seq<PaneId>
    decreases s.len(),
{
    if s.len() == 0 {
        Seq::empty()
    } else {
        drop_id(s.drop_last(), id) + (if s.last() == id {
            Seq::empty()
        } else {
            seq![s.last()]
        })
    }
}

pub proof fn lemma_no_dup_concat(a: Seq<PaneId>, b: Seq<PaneId>)
    ensures
        (a + b).no_duplicates() <==> (a.no_duplicates() && b.no_duplicates() && forall|x: PaneId|
            a.contains(x) ==> !b.contains(x)),
{
    let c = a + b;
    if c.no_duplicates() {
        assert forall|i: int, j: int| 0 <= i < a.len() && 0 <= j < a.len() && i != j implies a[i]
            != a[j] by {
            assert(c[i] == a[i] && c[j] == a[j]);
        }
        assert forall|i: int, j: int| 0 <= i < b.len() && 0 <= j < b.len() && i != j implies b[i]
            != b[j] by {
            assert(c[a.len() + i] == b[i] && c[a.len() + j] == b[j]);
        }
        assert forall|x: PaneId| a.contains(x) implies !b.contains(x) by {
            let i = choose|i: int| 0 <= i < a.len() && a[i] == x;
            if b.contains(x) {
                let j = choose|j: int| 0 <= j < b.len() && b[j] == x;
                assert(c[i] == c[a.len() + j]);
            }
        }
    }
    if a.no_duplicates() && b.no_duplicates() && forall|x: PaneId| a.contains(x) ==> !b.contains(
        x,
    ) {
        assert forall|i: int, j: int| 0 <= i < c.len() && 0 <= j < c.len() && i != j implies c[i]
            != c[j] by {
            if i < a.len() && j >= a.len() {
                assert(a.contains(c[i]));
                assert(b[j - a.len()] == c[j]);
            } else if j < a.len() && i >= a.len() {
                assert(a.contains(c[j]));
                assert(b[i - a.len()] == c[i]);
            } else if i >= a.len() {
                assert(b[i - a.len()] == c[i] && b[j - a.len()] == c[j]);
            }
        }
    }
}

pub proof fn lemma_spread_contains(s: Seq<PaneId>, t: PaneId, new: PaneId, x: PaneId)
    ensures
        spread(s, t, new).contains(x) <==> (s.contains(x) || (x == new && s.contains(t))),
    decreases s.len(),
{
    if s.len() > 0 {
        let p = s.drop_last();
        lemma_spread_contains(p, t, new, x);
        let tail = if s.last() == t {
            seq![t, new]
        } else {
            seq![s.last()]
        };
        lemma_concat_contains(spread(p, t, new), tail, x);
        lemma_concat_contains(p, seq![s.last()], x);
        lemma_concat_contains(p, seq![s.last()], t);
        assert(p + seq![s.last()] =~= s);
        if s.last() == t {
            assert(tail[0] == t && tail[1] == new);
            assert(tail.contains(x) <==> (x == t || x == new));
        } else {
            assert(tail[0] == s.last());
            assert(tail.contains(x) <==> x == s.last());
        }
        assert(seq![s.last()][0] == s.last());
    }
}

pub proof fn lemma_spread_absent(s: Seq<PaneId>, t: PaneId, new: PaneId)
    requires
        !s.contains(t),
    ensures
        spread(s, t, new) == s,
    decreases s.len(),
{
    if s.len() > 0 {
        assert(!s.drop_last().contains(t)) by {
            if s.drop_last().contains(t) {
                let i = choose|i: int| 0 <= i < s.drop_last().len() && s.drop_last()[i] == t;
                assert(s[i] == t);
            }
        }
        lemma_spread_absent(s.drop_last(), t, new);
        assert(s.last() != t) by {
            assert(s[s.len() - 1] == s.last());
        }
        assert(s.drop_last() + seq![s.last()] =~= s);
    }
}

pub proof fn lemma_spread_concat(a: Seq<PaneId>, b: Seq<PaneId>, t: PaneId, new: PaneId)
    ensures
        spread(a + b, t, new) == spread(a, t, new) + spread(b, t, new),
    decreases b.len(),
{
    if b.len() == 0 {
        assert(a + b =~= a);
        assert(spread(a, t, new) + Seq::empty() =~= spread(a, t, new));
    } else {
        assert((a + b).drop_last() =~= a + b.drop_last());
        assert((a + b).last() == b.last());
        lemma_spread_concat(a, b.drop_last(), t, new);
        let tail = if b.last() == t {
            seq![t, new]
        } else {
            seq![b.last()]
        };
        assert(spread(a, t, new) + spread(b.drop_last(), t, new) + tail =~= spread(a, t, new) + (
        spread(b.drop_last(), t, new) + tail));
    }
}

pub proof fn lemma_spread_no_dup(s: Seq<PaneId>, t: PaneId, new: PaneId)
    requires
        s.no_duplicates(),
        !s.contains(new),
    ensures
        spread(s, t, new).no_duplicates(),
    decreases s.len(),
{
    if s.len() > 0 {
        let p = s.drop_last();
        assert(p + seq![s.last()] =~= s);
        lemma_no_dup_concat(p, seq![s.last()]);
        assert(seq![s.last()].contains(s.last())) by {
            assert(seq![s.last()][0] == s.last());
        }
        assert(!p.contains(new)) by {
            lemma_concat_contains(p, seq![s.last()], new);
        }
        lemma_spread_no_dup(p, t, new);
        let tail = if s.last() == t {
            seq![t, new]
        } else {
            seq![s.last()]
        };
        assert(tail.no_duplicates()) by {
            if s.last() == t {
                assert(t != new) by {
                    assert(s.contains(t)) by {
                        assert(s[s.len() - 1] == t);
                    }
                }
            }
        }
        assert forall|x: PaneId| spread(p, t, new).contains(x) implies !tail.contains(x) by {
            lemma_spread_contains(p, t, new, x);
            if s.last() == t {
                assert(tail.contains(x) ==> x == t || x == new) by {
                    if tail.contains(x) {
                        let i = choose|i: int| 0 <= i < 2 && tail[i] == x;
                    }
                }
                if x == t {
                    assert(!p.contains(s.last()));
                } else if x == new {
                    assert(!p.contains(t));
                }
            } else {
                assert(tail.contains(x) ==> x == s.last()) by {
                    if tail.contains(x) {
                        let i = choose|i: int| 0 <= i < 1 && tail[i] == x;
                    }
                }
                if x == s.last() {
                    assert(!p.contains(s.last()));
                    assert(x != new) by {
                        assert(s[s.len() - 1] == x);
                    }
                }
            }
        }
        lemma_no_dup_concat(spread(p, t, new), tail);
    }
}

pub proof fn lemma_drop_contains(s: Seq<PaneId>, id: PaneId, x: PaneId)
    ensures
        drop_id(s, id).contains(x) <==> (s.contains(x) && x != id),
    decreases s.len(),
{
    if s.len() > 0 {
        let p = s.drop_last();
        lemma_drop_contains(p, id, x);
        let tail = if s.last() == id {
            Seq::<PaneId>::empty()
        } else {
            seq![s.last()]
        };
        lemma_concat_contains(drop_id(p, id), tail, x);
        lemma_concat_contains(p, seq![s.last()], x);
        assert(p + seq![s.last()] =~= s);
        assert(seq![s.last()][0] == s.last());
        if s.last() != id {
            assert(tail.contains(x) <==> x == s.last());
        }
    }
}

pub proof fn lemma_drop_concat(a: Seq<PaneId>, b: Seq<PaneId>, id: PaneId)
    ensures
        drop_id(a + b, id) == drop_id(a, id) + drop_id(b, id),
    decreases b.len(),
{
    if b.len() == 0 {
        assert(a + b =~= a);
        assert(drop_id(a, id) + Seq::empty() =~= drop_id(a, id));
    } else {
        assert((a + b).drop_last() =~= a + b.drop_last());
        assert((a + b).last() == b.last());
        lemma_drop_concat(a, b.drop_last(), id);
        let tail = if b.last() == id {
            Seq::<PaneId>::empty()
        } else {
            seq![b.last()]
        };
        assert(drop_id(a, id) + drop_id(b.drop_last(), id) + tail =~= drop_id(a, id) + (drop_id(
            b.drop_last(),
            id,
        ) + tail));
    }
}

pub proof fn lemma_drop_no_dup(s: Seq<PaneId>, id: PaneId)
    requires
        s.no_duplicates(),
    ensures
        drop_id(s, id).no_duplicates(),
    decreases s.len(),
{
    if s.len() > 0 {
        let p = s.drop_last();
        assert(p + seq![s.last()] =~= s);
        lemma_no_dup_concat(p, seq![s.last()]);
        lemma_drop_no_dup(p, id);
        let tail = if s.last() == id {
            Seq::<PaneId>::empty()
        } else {
            seq![s.last()]
        };
        assert forall|x: PaneId| drop_id(p, id).contains(x) implies !tail.contains(x) by {
            lemma_drop_contains(p, id, x);
            if tail.contains(x) {
                let i = choose|i: int| 0 <= i < tail.len() && tail[i] == x;
                assert(x == s.last());
                assert(seq![s.last()].contains(s.last())) by {
                    assert(seq![s.last()][0] == s.last());
                }
            }
        }
        lemma_no_dup_concat(drop_id(p, id), tail);
    }
}

impl Node {
    pub proof fn lemma_split_leaves(self, target: PaneId, axis: Axis, new: PaneId)
        requires
            self.leaves().no_duplicates(),
        ensures
            self.split_m(target, axis, new).leaves() == spread(self.leaves(), target, new),
        decreases self,
    {
        match self {
            Node::Leaf(id) => {
                reveal_with_fuel(spread, 2);
                reveal_with_fuel(Node::leaves, 2);
                assert(seq![id].drop_last() =~= Seq::<PaneId>::empty());
                assert(seq![id].last() == id);
                if id == target {
                    assert(seq![target] + seq![new] =~= seq![target, new]);
                    assert(Seq::<PaneId>::empty() + seq![target, new] =~= seq![target, new]);
                } else {
                    assert(Seq::<PaneId>::empty() + seq![id] =~= seq![id]);
                }
            },
            Node::Split { first, second, .. } => {
                lemma_no_dup_concat(first.leaves(), second.leaves());
                lemma_spread_concat(first.leaves(), second.leaves(), target, new);
                if first.leaves().contains(target) {
                    first.lemma_split_leaves(target, axis, new);
                    lemma_spread_absent(second.leaves(), target, new);
                } else {
                    second.lemma_split_leaves(target, axis, new);
                    lemma_spread_absent(first.leaves(), target, new);
                }
            },
        }
    }

    pub proof fn lemma_split_ratios(self, target: PaneId, axis: Axis, new: PaneId)
        requires
            self.ratios_ok(),
        ensures
            self.split_m(target, axis, new).ratios_ok(),
        decreases self,
    {
        reveal_with_fuel(Node::ratios_ok, 2);
        if let Node::Split { first, second, .. } = self {
            first.lemma_split_ratios(target, axis, new);
            second.lemma_split_ratios(target, axis, new);
        }
    }

    pub proof fn lemma_without(self, id: PaneId)
        ensures
            match self.without_m(id) {
                Some(n) => n.leaves() == drop_id(self.leaves(), id) && (self.ratios_ok()
                    ==> n.ratios_ok()),
                None => drop_id(self.leaves(), id).len() == 0,
            },
        decreases self,
    {
        match self {
            Node::Leaf(l) => {
                reveal_with_fuel(drop_id, 2);
                assert(seq![l].drop_last() =~= Seq::<PaneId>::empty());
                assert(seq![l].last() == l);
                assert(Seq::<PaneId>::empty() + seq![l] =~= seq![l]);
                assert(Seq::<PaneId>::empty() + Seq::<PaneId>::empty() =~= Seq::<PaneId>::empty());
            },
            Node::Split { first, second, .. } => {
                first.lemma_without(id);
                second.lemma_without(id);
                lemma_drop_concat(first.leaves(), second.leaves(), id);
                assert(drop_id(first.leaves(), id) + Seq::empty() =~= drop_id(first.leaves(), id));
                assert(Seq::empty() + drop_id(second.leaves(), id) =~= drop_id(second.leaves(), id));
            },
        }
    }

    pub proof fn lemma_sibling(self, id: PaneId)
        requires
            self.leaves().no_duplicates(),
        ensures
            match self.sibling_m(id) {
                Some(s) => s.leaves().len() >= 1 && forall|x: PaneId| #[trigger]
                    s.leaves().contains(x) ==> self.leaves().contains(x) && x != id,
                None => !self.leaves().contains(id) || self.leaves().len() == 1,
            },
        decreases self,
    {
        match self {
            Node::Leaf(l) => {},
            Node::Split { first, second, .. } => {
                lemma_no_dup_concat(first.leaves(), second.leaves());
                first.lemma_leaves_nonempty();
                second.lemma_leaves_nonempty();
                assert forall|x: PaneId| first.leaves().contains(x) || second.leaves().contains(x)
                    implies #[trigger] self.leaves().contains(x) by {
                    lemma_concat_contains(first.leaves(), second.leaves(), x);
                }
                lemma_concat_contains(first.leaves(), second.leaves(), id);
                if first.leaves().contains(id) {
                    first.lemma_sibling(id);
                    match first.sibling_m(id) {
                        Some(s) => {
                            assert forall|x: PaneId| #[trigger]
                                s.leaves().contains(x) implies self.leaves().contains(x) && x
                                != id by {
                                assert(first.leaves().contains(x));
                            }
                        },
                        None => {
                            assert forall|x: PaneId| #[trigger]
                                second.leaves().contains(x) implies self.leaves().contains(x)
                                && x != id by {}
                        },
                    }
                } else if second.leaves().contains(id) {
                    second.lemma_sibling(id);
                    match second.sibling_m(id) {
                        Some(s) => {
                            assert forall|x: PaneId| #[trigger]
                                s.leaves().contains(x) implies self.leaves().contains(x) && x
                                != id by {
                                assert(second.leaves().contains(x));
                            }
                        },
                        None => {
                            assert forall|x: PaneId| #[trigger]
                                first.leaves().contains(x) implies self.leaves().contains(x)
                                && x != id by {}
                        },
                    }
                }
            },
        }
    }

    pub proof fn lemma_splits(self)
        ensures
            self.splits() + 1 == self.leaves().len(),
        decreases self,
    {
        if let Node::Split { first, second, .. } = self {
            first.lemma_splits();
            second.lemma_splits();
        }
    }

    pub proof fn lemma_with_ratio(self, k: int, r: u32)
        ensures
            self.with_ratio(k, r).leaves() == self.leaves(),
            self.ratios_ok() && MIN_RATIO <= r <= RATIO_SCALE - MIN_RATIO ==> self.with_ratio(
                k,
                r,
            ).ratios_ok(),
        decreases self,
    {
        if let Node::Split { first, second, .. } = self {
            first.lemma_with_ratio(k - 1, r);
            second.lemma_with_ratio(k - 1 - first.splits(), r);
        }
    }

    pub proof fn lemma_equalized(self)
        ensures
            self.equalized().leaves() == self.leaves(),
            self.equalized().ratios_ok(),
        decreases self,
    {
        if let Node::Split { first, second, .. } = self {
            first.lemma_equalized();
            second.lemma_equalized();
        }
    }
}


// ------------------------------------------------------------------ layout

/// The split layout: the tree and the panes at its leaves.
pub struct Panes {
    root: Node,
    /// Pane storage, in no particular order; the tree gives the order.
    panes: Vec<Pane>,
    focus: PaneId,
    next_id: PaneId,
}

/// The layout as the contracts see it.
pub struct PanesView {
    pub root: Node,
    pub panes: Seq<PaneView>,
    pub focus: PaneId,
    pub next_id: PaneId,
}

pub open spec fn pane_views(ps: Seq<Pane>) -> Seq<PaneView> {
    ps.map_values(|p: Pane| p@)
}

impl View for Panes {
    type V = PanesView;

    closed spec fn view(&self) -> PanesView {
        PanesView {
            root: self.root,
            panes: pane_views(self.panes@),
            focus: self.focus,
            next_id: self.next_id,
        }
    }
}

/// The ids of the panes, in storage order.
pub open spec fn ids(ps: Seq<PaneView>) -> Seq<PaneId> {
    ps.map_values(|p: PaneView| p.id)
}

/// Where the pane with `id` is stored.
pub open spec fn slot(ps: Seq<PaneView>, id: PaneId) -> int {
    choose|i: int| 0 <= i < ps.len() && ps[i].id == id
}

/// Where `id` stands in `order`.
pub open spec fn place(order: Seq<PaneId>, id: PaneId) -> int {
    choose|i: int| 0 <= i < order.len() && order[i] == id
}

impl PanesView {
    /// The tree and the storage name the same panes, each once; the focus is
    /// one of them; every id is below the next one handed out; every ratio
    /// keeps both sides in view.
    pub open spec fn wf(self) -> bool {
        &&& self.root.leaves().no_duplicates()
        &&& ids(self.panes).no_duplicates()
        &&& forall|id: PaneId| #![trigger self.root.leaves().contains(id)] #![trigger ids(self.panes).contains(id)]
            self.root.leaves().contains(id) <==> ids(self.panes).contains(id)
        &&& self.root.leaves().contains(self.focus)
        &&& forall|i: int| 0 <= i < self.root.leaves().len() ==> #[trigger] self.root.leaves()[i] < self.next_id
        &&& self.root.ratios_ok()
    }

    /// The focused pane.
    pub open spec fn active(self) -> PaneView {
        self.panes[slot(self.panes, self.focus)]
    }
}

pub proof fn lemma_slot(ps: Seq<PaneView>, id: PaneId)
    requires
        ids(ps).no_duplicates(),
        ids(ps).contains(id),
    ensures
        0 <= slot(ps, id) < ps.len(),
        ps[slot(ps, id)].id == id,
        forall|j: int| 0 <= j < ps.len() && #[trigger] ps[j].id == id ==> j == slot(ps, id),
{
    let k = choose|k: int| 0 <= k < ids(ps).len() && ids(ps)[k] == id;
    assert(ps[k].id == id);
    let i = slot(ps, id);
    assert forall|j: int| 0 <= j < ps.len() && #[trigger] ps[j].id == id implies j == i by {
        assert(ids(ps)[j] == ids(ps)[i]);
    }
}

pub proof fn lemma_place(order: Seq<PaneId>, id: PaneId)
    requires
        order.no_duplicates(),
        order.contains(id),
    ensures
        0 <= place(order, id) < order.len(),
        order[place(order, id)] == id,
        forall|j: int| 0 <= j < order.len() && #[trigger] order[j] == id ==> j == place(order, id),
{
}

/// The layout after splitting the focused pane; the new pane gets the
/// focused pane's current tab.
pub open spec fn split_view(v: PanesView, axis: Axis) -> PanesView {
    let i = slot(v.panes, v.focus);
    let src = v.panes[i];
    let id = v.next_id;
    let moved = if src.active < src.tabs.len() {
        seq![src.tabs[src.active as int]]
    } else {
        Seq::empty()
    };
    PanesView {
        root: v.root.split_m(v.focus, axis, id),
        panes: v.panes.update(i, taken(src, src.active)).push(PaneView { id, tabs: moved, active: 0 }),
        focus: id,
        next_id: (id + 1) as u64,
    }
}

/// The pane that takes over when the focused one closes.
pub open spec fn heir_of(v: PanesView) -> PaneId {
    match v.root.sibling_m(v.focus) {
        Some(s) => s.leaves()[0],
        None => v.focus,
    }
}

/// The layout after closing the focused pane; its tabs go to the heir.
pub open spec fn close_view(v: PanesView) -> PanesView {
    let heir = heir_of(v);
    if v.panes.len() < 2 || heir == v.focus {
        v
    } else {
        let i = slot(v.panes, v.focus);
        let rest = v.panes.remove(i);
        let root = match v.root.without_m(v.focus) {
            Some(r) => r,
            None => Node::Leaf(heir),
        };
        let panes = if ids(rest).contains(heir) {
            let h = slot(rest, heir);
            rest.update(h, adopted(rest[h], v.panes[i].tabs))
        } else {
            rest
        };
        PanesView { root, panes, focus: heir, next_id: v.next_id }
    }
}

/// The tabs of the panes in `order`, `keep` left out, one pane after another.
pub open spec fn gather(ps: Seq<PaneView>, order: Seq<PaneId>, keep: PaneId) -> Seq<Document>
    decreases order.len(),
{
    if order.len() == 0 {
        Seq::empty()
    } else {
        let id = order.last();
        gather(ps, order.drop_last(), keep) + (if id != keep && ids(ps).contains(id) {
            ps[slot(ps, id)].tabs
        } else {
            Seq::empty()
        })
    }
}

/// The layout after closing every pane but the focused one, which gathers
/// their tabs in layout order.
pub open spec fn only_view(v: PanesView) -> PanesView {
    if v.panes.len() < 2 {
        v
    } else {
        let k = slot(v.panes, v.focus);
        PanesView {
            root: Node::Leaf(v.focus),
            panes: seq![adopted(v.panes[k], gather(v.panes, v.root.leaves(), v.focus))],
            focus: v.focus,
            next_id: v.next_id,
        }
    }
}

/// The layout with `id` focused, if there is such a pane.
pub open spec fn set_focus_view(v: PanesView, id: PaneId) -> PanesView {
    if ids(v.panes).contains(id) {
        PanesView { focus: id, ..v }
    } else {
        v
    }
}

/// The layout after dragging tab `index` of pane `from` to position `at` of
/// pane `to`, as that pane looks before the drop.
pub open spec fn move_tab_view(v: PanesView, from: PaneId, index: usize, to: PaneId, at: usize) -> PanesView {
    if !ids(v.panes).contains(from) {
        v
    } else {
        let i = slot(v.panes, from);
        let p = v.panes[i];
        if index >= p.tabs.len() {
            v
        } else {
            let doc = p.tabs[index as int];
            if from == to {
                let rest = PaneView { tabs: p.tabs.remove(index as int), ..p };
                let at = if at > index {
                    (at - 1) as usize
                } else {
                    at
                };
                set_focus_view(PanesView { panes: v.panes.update(i, put_at(rest, doc, at)), ..v }, to)
            } else if !ids(v.panes).contains(to) {
                PanesView { panes: v.panes.update(i, put_at(taken(p, index), doc, index)), ..v }
            } else {
                let j = slot(v.panes, to);
                let ps = v.panes.update(i, taken(p, index));
                set_focus_view(PanesView { panes: ps.update(j, put_at(ps[j], doc, at)), ..v }, to)
            }
        }
    }
}

/// `ratio` held off both edges.
pub open spec fn clamp_ratio(ratio: u32) -> u32 {
    if ratio < MIN_RATIO {
        MIN_RATIO
    } else if ratio > RATIO_SCALE - MIN_RATIO {
        (RATIO_SCALE - MIN_RATIO) as u32
    } else {
        ratio
    }
}

/// The layout with the focus moved one pane on in layout order, wrapping.
pub open spec fn cycle_view(v: PanesView, forward: bool) -> PanesView {
    let order = v.root.leaves();
    if order.len() < 2 || !order.contains(v.focus) {
        v
    } else {
        let at = place(order, v.focus);
        let step = if forward {
            1
        } else {
            order.len() - 1
        };
        PanesView { focus: order[(at + step) % (order.len() as int)], ..v }
    }
}



/// Every pane of `v` with its tabs closed; the layout itself unchanged.
pub open spec fn emptied(v: PanesView) -> PanesView {
    PanesView {
        panes: v.panes.map_values(|p: PaneView| PaneView { id: p.id, tabs: Seq::empty(), active: 0 }),
        ..v
    }
}

impl Panes {
    /// One empty pane.
    pub fn new() -> (r: Panes)
        ensures
            r@.root == Node::Leaf(0),
            r@.panes == seq![PaneView { id: 0, tabs: Seq::empty(), active: 0 }],
            r@.focus == 0,
            r@.next_id == 1,
            r@.wf(),
    {
        let mut panes: Vec<Pane> = Vec::new();
        panes.push(Pane::new(0));
        let r = Panes { root: Node::Leaf(0), panes, focus: 0, next_id: 1 };
        proof {
            assert(pane_views(r.panes@) =~= seq![PaneView { id: 0, tabs: Seq::empty(), active: 0 }]);
            assert(ids(r@.panes) =~= seq![0u64]);
            assert(r@.root.leaves() =~= seq![0u64]);
            assert(seq![0u64].no_duplicates());
            assert(seq![0u64].contains(0u64)) by {
                assert(seq![0u64][0] == 0u64);
            }
            assert forall|id: PaneId| r@.root.leaves().contains(id) <==> ids(r@.panes).contains(id) by {}
            assert(r@.root.ratios_ok());
        }
        r
    }

    pub fn focus(&self) -> (r: PaneId)
        ensures
            r == self@.focus,
    {
        self.focus
    }

    pub fn len(&self) -> (r: usize)
        ensures
            r == self@.panes.len(),
    {
        self.panes.len()
    }

    /// Whether another pane can be made: ids are never reused.
    pub fn can_split(&self) -> (r: bool)
        ensures
            r == (self@.next_id < u64::MAX),
    {
        self.next_id < u64::MAX
    }

    /// The tree, for painting.
    pub fn root(&self) -> (r: &Node)
        ensures
            *r == self@.root,
    {
        &self.root
    }

    /// Where the pane with `id` is stored.
    fn find(&self, id: PaneId) -> (r: Option<usize>)
        ensures
            match r {
                Some(i) => i < self@.panes.len() && self@.panes[i as int].id == id && ids(
                    self@.panes,
                ).contains(id),
                None => !ids(self@.panes).contains(id),
            },
    {
        let mut i: usize = 0;
        while i < self.panes.len()
            invariant
                i <= self.panes.len(),
                forall|j: int| 0 <= j < i ==> self.panes@[j].id != id,
            decreases self.panes.len() - i,
        {
            if self.panes[i].id == id {
                assert(ids(self@.panes)[i as int] == id);
                return Some(i);
            }
            i += 1;
        }
        proof {
            if ids(self@.panes).contains(id) {
                let k = choose|k: int| 0 <= k < ids(self@.panes).len() && ids(self@.panes)[k] == id;
                assert(self.panes@[k].id == id);
            }
        }
        None
    }

    /// Where the focused pane is stored.
    fn focus_index(&self) -> (r: usize)
        requires
            self@.wf(),
        ensures
            r < self@.panes.len(),
            r == slot(self@.panes, self@.focus),
    {
        proof {
            lemma_slot(self@.panes, self@.focus);
        }
        match self.find(self.focus) {
            Some(i) => i,
            None => 0,
        }
    }

    /// Focuses `id`, if there is such a pane.
    pub fn set_focus(&mut self, id: PaneId)
        requires
            old(self)@.wf(),
        ensures
            final(self)@ == set_focus_view(old(self)@, id),
            final(self)@.wf(),
    {
        if self.find(id).is_some() {
            self.focus = id;
        }
    }

    /// The pane with `id`.
    pub fn pane(&self, id: PaneId) -> (r: Option<&Pane>)
        requires
            self@.wf(),
        ensures
            match r {
                Some(p) => ids(self@.panes).contains(id) && p@ == self@.panes[slot(self@.panes, id)],
                None => !ids(self@.panes).contains(id),
            },
    {
        match self.find(id) {
            Some(i) => {
                proof {
                    lemma_slot(self@.panes, id);
                }
                Some(&self.panes[i])
            },
            None => None,
        }
    }

    /// The focused pane, which always exists.
    pub fn active(&self) -> (r: &Pane)
        requires
            self@.wf(),
        ensures
            r@ == self@.active(),
    {
        let i = self.focus_index();
        &self.panes[i]
    }

    /// The panes' ids in layout order, left to right and top to bottom.
    pub fn order(&self) -> (r: Vec<PaneId>)
        ensures
            r@ == self@.root.leaves(),
    {
        let mut out: Vec<PaneId> = Vec::new();
        self.root.collect(&mut out);
        assert(Seq::<PaneId>::empty() + self.root.leaves() =~= self.root.leaves());
        out
    }
}


pub proof fn lemma_views_update(ps: Seq<Pane>, i: int, p: Pane)
    requires
        0 <= i < ps.len(),
    ensures
        pane_views(ps.update(i, p)) == pane_views(ps).update(i, p@),
{
    assert(pane_views(ps.update(i, p)) =~= pane_views(ps).update(i, p@));
}

pub proof fn lemma_ids_update(ps: Seq<PaneView>, i: int, p: PaneView)
    requires
        0 <= i < ps.len(),
        p.id == ps[i].id,
    ensures
        ids(ps.update(i, p)) == ids(ps),
{
    assert(ids(ps.update(i, p)) =~= ids(ps));
}

pub proof fn lemma_views_update_all(ps: Seq<Pane>, i: int)
    requires
        0 <= i < ps.len(),
    ensures
        forall|p: Pane| #[trigger] pane_views(ps.update(i, p)) == pane_views(ps).update(i, p@),
{
    assert forall|p: Pane| #[trigger] pane_views(ps.update(i, p)) == pane_views(ps).update(i, p@) by {
        lemma_views_update(ps, i, p);
    }
}

pub proof fn lemma_wf_update_all(v: PanesView, i: int)
    requires
        v.wf(),
        0 <= i < v.panes.len(),
    ensures
        forall|p: PaneView| p.id == v.panes[i].id ==> (PanesView { panes: #[trigger] v.panes.update(i, p), ..v }).wf(),
{
    assert forall|p: PaneView| p.id == v.panes[i].id implies (PanesView { panes: #[trigger] v.panes.update(i, p), ..v }).wf() by {
        lemma_wf_update(v, i, p);
    }
}

/// Replacing a pane by one with the same id keeps the layout well formed.
pub proof fn lemma_wf_update(v: PanesView, i: int, p: PaneView)
    requires
        v.wf(),
        0 <= i < v.panes.len(),
        p.id == v.panes[i].id,
    ensures
        (PanesView { panes: v.panes.update(i, p), ..v }).wf(),
{
    lemma_ids_update(v.panes, i, p);
}

impl Panes {
    /// The focused pane, for changing its tabs. The layout stays well formed
    /// as long as the pane keeps its id.
    pub fn active_mut(&mut self) -> (r: &mut Pane)
        requires
            old(self)@.wf(),
        ensures
            r@ == old(self)@.active(),
            final(self)@ == (PanesView {
                panes: old(self)@.panes.update(slot(old(self)@.panes, old(self)@.focus), final(r)@),
                ..old(self)@
            }),
            final(r).id == r.id ==> final(self)@.wf(),
    {
        let i = self.focus_index();
        proof {
            lemma_slot(self@.panes, self@.focus);
        }
        let r = &mut self.panes[i];
        proof {
            lemma_views_update_all(old(self).panes@, i as int);
            lemma_wf_update_all(old(self)@, i as int);
        }
        r
    }

    /// The pane with `id`, for changing its tabs. The layout stays well
    /// formed as long as the pane keeps its id.
    pub fn pane_mut(&mut self, id: PaneId) -> (r: Option<&mut Pane>)
        requires
            old(self)@.wf(),
        ensures
            match r {
                Some(p) => {
                    &&& ids(old(self)@.panes).contains(id)
                    &&& p@ == old(self)@.panes[slot(old(self)@.panes, id)]
                    &&& final(self)@ == (PanesView {
                        panes: old(self)@.panes.update(slot(old(self)@.panes, id), final(p)@),
                        ..old(self)@
                    })
                    &&& (final(p).id == p.id ==> final(self)@.wf())
                },
                None => !ids(old(self)@.panes).contains(id) && final(self)@ == old(self)@,
            },
    {
        match self.find(id) {
            Some(i) => {
                proof {
                    lemma_slot(self@.panes, id);
                }
                let r = &mut self.panes[i];
                proof {
                    lemma_views_update_all(old(self).panes@, i as int);
                    lemma_wf_update_all(old(self)@, i as int);
                }
                Some(r)
            },
            None => None,
        }
    }

    /// The pane stored at `i`, for visiting every pane. The layout stays
    /// well formed as long as the pane keeps its id.
    pub fn pane_at_mut(&mut self, i: usize) -> (r: &mut Pane)
        requires
            old(self)@.wf(),
            i < old(self)@.panes.len(),
        ensures
            r@ == old(self)@.panes[i as int],
            final(self)@ == (PanesView { panes: old(self)@.panes.update(i as int, final(r)@), ..old(self)@ }),
            final(r).id == r.id ==> final(self)@.wf(),
    {
        let r = &mut self.panes[i];
        proof {
            lemma_views_update_all(old(self).panes@, i as int);
            lemma_wf_update_all(old(self)@, i as int);
        }
        r
    }
}


/// Splitting keeps the layout well formed.
pub proof fn lemma_split_wf(v: PanesView, axis: Axis)
    requires
        v.wf(),
        v.next_id < u64::MAX,
    ensures
        split_view(v, axis).wf(),
{
    let w = split_view(v, axis);
    let id = v.next_id;
    let leaves = v.root.leaves();
    lemma_slot(v.panes, v.focus);
    let i = slot(v.panes, v.focus);
    v.root.lemma_split_leaves(v.focus, axis, id);
    v.root.lemma_split_ratios(v.focus, axis, id);
    assert(!leaves.contains(id)) by {
        if leaves.contains(id) {
            let k = choose|k: int| 0 <= k < leaves.len() && leaves[k] == id;
            assert(leaves[k] < v.next_id);
        }
    }
    lemma_spread_no_dup(leaves, v.focus, id);
    let src = v.panes[i];
    let mid = v.panes.update(i, taken(src, src.active));
    lemma_ids_update(v.panes, i, taken(src, src.active));
    let np = PaneView { id, tabs: if src.active < src.tabs.len() {
        seq![src.tabs[src.active as int]]
    } else {
        Seq::empty()
    }, active: 0 };
    assert(ids(w.panes) =~= ids(v.panes).push(id));
    assert(ids(v.panes).push(id) =~= ids(v.panes) + seq![id]);
    assert(seq![id].no_duplicates());
    assert(!ids(v.panes).contains(id));
    assert(seq![id].contains(id)) by {
        assert(seq![id][0] == id);
    }
    assert forall|x: PaneId| ids(v.panes).contains(x) implies !seq![id].contains(x) by {
        if seq![id].contains(x) {
            let k = choose|k: int| 0 <= k < 1 && seq![id][k] == x;
        }
    }
    lemma_no_dup_concat(ids(v.panes), seq![id]);
    assert forall|x: PaneId| #![trigger w.root.leaves().contains(x)] #![trigger ids(w.panes).contains(x)]
        w.root.leaves().contains(x) <==> ids(w.panes).contains(x) by {
        lemma_spread_contains(leaves, v.focus, id, x);
        lemma_concat_contains(ids(v.panes), seq![id], x);
        if seq![id].contains(x) {
            let k = choose|k: int| 0 <= k < 1 && seq![id][k] == x;
        }
    }
    lemma_spread_contains(leaves, v.focus, id, id);
    assert forall|k: int| 0 <= k < w.root.leaves().len() implies #[trigger] w.root.leaves()[k] < w.next_id by {
        let x = w.root.leaves()[k];
        assert(w.root.leaves().contains(x));
        lemma_spread_contains(leaves, v.focus, id, x);
        if leaves.contains(x) {
            let j = choose|j: int| 0 <= j < leaves.len() && leaves[j] == x;
            assert(leaves[j] < v.next_id);
        }
    }
}

impl Panes {
    /// Splits the focused pane, moving its current tab into the new one.
    ///
    /// The new pane takes the right half (`Row`) or the bottom half (`Column`)
    /// and the focus; the old pane keeps the rest of its tabs.
    pub fn split(&mut self, axis: Axis) -> (r: PaneId)
        requires
            old(self)@.wf(),
            old(self)@.next_id < u64::MAX,
        ensures
            r == old(self)@.next_id,
            final(self)@ == split_view(old(self)@, axis),
            final(self)@.wf(),
    {
        let id = self.next_id;
        self.next_id = self.next_id + 1;
        let i = self.focus_index();
        let a = self.panes[i].active;
        let mut pane = Pane::new(id);
        let ghost before = self.panes@;
        let moved = self.panes[i].take(a);
        proof {
            lemma_views_update(before, i as int, self.panes@[i as int]);
            assert(self.panes@ == before.update(i as int, self.panes@[i as int]));
        }
        match moved {
            Some(doc) => {
                pane.tabs.push(doc);
            },
            None => {},
        }
        let ghost mid = self.panes@;
        self.panes.push(pane);
        proof {
            assert(pane_views(self.panes@) =~= pane_views(mid).push(pane@));
            let v = old(self)@;
            let src = v.panes[i as int];
            if src.active < src.tabs.len() {
                assert(pane@.tabs =~= seq![src.tabs[src.active as int]]);
            } else {
                assert(pane@.tabs =~= Seq::<Document>::empty());
            }
        }
        let mut root = Node::Leaf(0);
        std::mem::swap(&mut root, &mut self.root);
        self.root = root.split(self.focus, axis, id);
        self.focus = id;
        proof {
            lemma_split_wf(old(self)@, axis);
        }
        id
    }
}


pub proof fn lemma_remove_no_dup(s: Seq<PaneId>, i: int)
    requires
        s.no_duplicates(),
        0 <= i < s.len(),
    ensures
        s.remove(i).no_duplicates(),
        forall|x: PaneId| s.remove(i).contains(x) <==> s.contains(x) && x != s[i],
{
    let r = s.remove(i);
    assert forall|a: int, b: int| 0 <= a < r.len() && 0 <= b < r.len() && a != b implies r[a] != r[b] by {
        let a2 = if a < i { a } else { a + 1 };
        let b2 = if b < i { b } else { b + 1 };
        assert(r[a] == s[a2] && r[b] == s[b2]);
    }
    assert forall|x: PaneId| r.contains(x) <==> s.contains(x) && x != s[i] by {
        if r.contains(x) {
            let a = choose|a: int| 0 <= a < r.len() && r[a] == x;
            let a2 = if a < i { a } else { a + 1 };
            assert(s[a2] == x);
        }
        if s.contains(x) && x != s[i] {
            let a = choose|a: int| 0 <= a < s.len() && s[a] == x;
            if a < i {
                assert(r[a] == x);
            } else {
                assert(r[a - 1] == x);
            }
        }
    }
}

/// Closing keeps the layout well formed.
pub proof fn lemma_close_wf(v: PanesView)
    requires
        v.wf(),
    ensures
        close_view(v).wf(),
{
    let heir = heir_of(v);
    if v.panes.len() >= 2 && heir != v.focus {
        let leaves = v.root.leaves();
        lemma_slot(v.panes, v.focus);
        let i = slot(v.panes, v.focus);
        let rest = v.panes.remove(i);
        v.root.lemma_sibling(v.focus);
        v.root.lemma_without(v.focus);
        let sib = v.root.sibling_m(v.focus);
        assert(sib is Some);
        let sl = sib->0.leaves();
        assert(sl.contains(heir)) by {
            assert(sl[0] == heir);
        }
        assert(leaves.contains(heir) && heir != v.focus);
        lemma_drop_contains(leaves, v.focus, heir);
        lemma_drop_no_dup(leaves, v.focus);
        let nr = v.root.without_m(v.focus);
        assert(nr is Some);
        assert(ids(rest) =~= ids(v.panes).remove(i));
        lemma_remove_no_dup(ids(v.panes), i);
        assert(ids(v.panes)[i] == v.focus);
        assert(ids(rest).contains(heir));
        lemma_slot(rest, heir);
        let h = slot(rest, heir);
        lemma_ids_update(rest, h, adopted(rest[h], v.panes[i].tabs));
        let w = close_view(v);
        assert(ids(w.panes) == ids(rest));
        assert(w.root.leaves() == drop_id(leaves, v.focus));
        assert forall|x: PaneId| #![trigger w.root.leaves().contains(x)] #![trigger ids(w.panes).contains(x)]
            w.root.leaves().contains(x) <==> ids(w.panes).contains(x) by {
            lemma_drop_contains(leaves, v.focus, x);
        }
        assert forall|k: int| 0 <= k < w.root.leaves().len() implies #[trigger] w.root.leaves()[k] < w.next_id by {
            let x = w.root.leaves()[k];
            assert(w.root.leaves().contains(x));
            lemma_drop_contains(leaves, v.focus, x);
            let j = choose|j: int| 0 <= j < leaves.len() && leaves[j] == x;
            assert(leaves[j] < v.next_id);
        }
    }
}

impl Panes {
    /// Closes the focused pane, handing its tabs to the pane that takes over.
    ///
    /// Like vim, closing a window never closes what was open in it. The last
    /// pane stays.
    pub fn close(&mut self)
        requires
            old(self)@.wf(),
        ensures
            final(self)@ == close_view(old(self)@),
            final(self)@.wf(),
    {
        proof {
            lemma_close_wf(old(self)@);
        }
        if self.panes.len() < 2 {
            return;
        }
        let heir = match self.root.heir(self.focus) {
            Some(h) => h,
            None => self.focus,
        };
        if heir == self.focus {
            return;
        }
        let going = self.focus;
        let gi = self.focus_index();
        let ghost before = self.panes@;
        let gone = self.panes.remove(gi);
        proof {
            assert(pane_views(self.panes@) =~= pane_views(before).remove(gi as int));
        }
        let mut root = Node::Leaf(heir);
        std::mem::swap(&mut root, &mut self.root);
        match root.without(going) {
            Some(r) => {
                self.root = r;
            },
            None => {},
        }
        self.focus = heir;
        match self.find(heir) {
            Some(h) => {
                proof {
                    let rest = pane_views(self.panes@);
                    lemma_remove_no_dup(ids(old(self)@.panes), gi as int);
                    assert(ids(rest) =~= ids(old(self)@.panes).remove(gi as int));
                    lemma_slot(rest, heir);
                }
                let ghost mid = self.panes@;
                self.panes[h].adopt(gone.tabs);
                proof {
                    lemma_views_update(mid, h as int, self.panes@[h as int]);
                    assert(self.panes@ == mid.update(h as int, self.panes@[h as int]));
                }
            },
            None => {},
        }
    }
}


impl Panes {
    /// Closes every other pane, gathering their tabs into the focused one.
    pub fn only(&mut self)
        requires
            old(self)@.wf(),
        ensures
            final(self)@ == only_view(old(self)@),
            final(self)@.wf(),
    {
        if self.panes.len() < 2 {
            return;
        }
        let keep = self.focus;
        let order = self.order();
        let ghost v = old(self)@;
        let mut tabs: Vec<Document> = Vec::new();
        let mut k: usize = 0;
        assert(order@.take(0) =~= Seq::<PaneId>::empty());
        while k < order.len()
            invariant
                k <= order@.len(),
                order@ == v.root.leaves(),
                v.wf(),
                keep == v.focus,
                self@.root == v.root,
                self@.focus == v.focus,
                self@.next_id == v.next_id,
                self@.panes.len() == v.panes.len(),
                forall|j: int| 0 <= j < v.panes.len() ==> #[trigger] self@.panes[j].id == v.panes[j].id
                    && self@.panes[j].active == v.panes[j].active,
                forall|j: int| 0 <= j < v.panes.len() ==> #[trigger] self@.panes[j].tabs == (if order@.take(
                    k as int,
                ).contains(v.panes[j].id) && v.panes[j].id != keep {
                    Seq::<Document>::empty()
                } else {
                    v.panes[j].tabs
                }),
                tabs@ == gather(v.panes, order@.take(k as int), keep),
            decreases order@.len() - k,
        {
            let id = order[k];
            let ghost pre = order@.take(k as int);
            assert(order@.take(k + 1).drop_last() =~= pre);
            assert(order@.take(k + 1).last() == id);
            proof {
                assert(ids(self@.panes) =~= ids(v.panes));
                lemma_concat_contains(pre, seq![id], id);
            }
            if id != keep {
                match self.find(id) {
                    Some(j) => {
                        proof {
                            lemma_slot(v.panes, id);
                            assert(!pre.contains(id)) by {
                                if pre.contains(id) {
                                    let a = choose|a: int| 0 <= a < pre.len() && pre[a] == id;
                                    assert(order@[a] == order@[k as int]);
                                }
                            }
                        }
                        let mut t: Vec<Document> = Vec::new();
                        let ghost mid = self.panes@;
                        proof {
                            assert(v.panes[j as int].id == id);
                            assert(!(order@.take(k as int).contains(v.panes[j as int].id)));
                            assert(self@.panes[j as int].tabs == v.panes[j as int].tabs);
                            assert(mid[j as int].tabs@ == v.panes[j as int].tabs);
                        }
                        std::mem::swap(&mut t, &mut self.panes[j].tabs);
                        proof {
                            lemma_views_update(mid, j as int, self.panes@[j as int]);
                            assert(self.panes@ == mid.update(j as int, self.panes@[j as int]));
                        }
                        let ghost before = tabs@;
                        let ghost tv = t@;
                        proof {
                            assert(tv == v.panes[j as int].tabs);
                            assert(j as int == slot(v.panes, id));
                        }
                        tabs.append(&mut t);
                        proof {
                            assert(tabs@ == before + tv);
                            assert(gather(v.panes, order@.take(k + 1), keep) == gather(v.panes, pre, keep) + v.panes[slot(v.panes, id)].tabs);
                            assert forall|jj: int| 0 <= jj < v.panes.len() implies #[trigger] self@.panes[jj].tabs == (if order@.take(
                                k + 1,
                            ).contains(v.panes[jj].id) && v.panes[jj].id != keep {
                                Seq::<Document>::empty()
                            } else {
                                v.panes[jj].tabs
                            }) by {
                                lemma_concat_contains(pre, seq![id], v.panes[jj].id);
                                assert(order@.take(k + 1) =~= pre + seq![id]);
                                if v.panes[jj].id == id {
                                    assert(jj == j);
                                }
                                if seq![id].contains(v.panes[jj].id) {
                                    assert(seq![id][0] == id);
                                    let a = choose|a: int| 0 <= a < 1 && seq![id][a] == v.panes[jj].id;
                                }
                            }
                        }
                    },
                    None => {
                        proof {
                            assert forall|jj: int| 0 <= jj < v.panes.len() implies #[trigger] self@.panes[jj].tabs == (if order@.take(
                                k + 1,
                            ).contains(v.panes[jj].id) && v.panes[jj].id != keep {
                                Seq::<Document>::empty()
                            } else {
                                v.panes[jj].tabs
                            }) by {
                                lemma_concat_contains(pre, seq![id], v.panes[jj].id);
                                assert(order@.take(k + 1) =~= pre + seq![id]);
                                assert(ids(v.panes)[jj] == v.panes[jj].id);
                                if seq![id].contains(v.panes[jj].id) {
                                    let a = choose|a: int| 0 <= a < 1 && seq![id][a] == v.panes[jj].id;
                                }
                            }
                            assert(tabs@ + Seq::<Document>::empty() =~= tabs@);
                        }
                    },
                }
            } else {
                proof {
                    assert forall|jj: int| 0 <= jj < v.panes.len() implies #[trigger] self@.panes[jj].tabs == (if order@.take(
                        k + 1,
                    ).contains(v.panes[jj].id) && v.panes[jj].id != keep {
                        Seq::<Document>::empty()
                    } else {
                        v.panes[jj].tabs
                    }) by {
                        lemma_concat_contains(pre, seq![id], v.panes[jj].id);
                        assert(order@.take(k + 1) =~= pre + seq![id]);
                        if seq![id].contains(v.panes[jj].id) {
                            let a = choose|a: int| 0 <= a < 1 && seq![id][a] == v.panes[jj].id;
                        }
                    }
                    assert(tabs@ + Seq::<Document>::empty() =~= tabs@);
                }
            }
            k += 1;
        }
        assert(order@.take(order@.len() as int) =~= order@);
        proof {
            assert(ids(self@.panes) =~= ids(v.panes));
            lemma_slot(v.panes, keep);
        }
        let ki = self.focus_index();
        let mut kept = self.panes.remove(ki);
        proof {
            assert(kept@.tabs == v.panes[ki as int].tabs);
        }
        kept.adopt(tabs);
        let mut panes: Vec<Pane> = Vec::new();
        panes.push(kept);
        self.panes = panes;
        self.root = Node::Leaf(keep);
        proof {
            assert(pane_views(self.panes@) =~= seq![kept@]);
            let w = self@;
            assert(ids(w.panes) =~= seq![keep]);
            assert(w.root.leaves() =~= seq![keep]);
            assert(seq![keep].contains(keep)) by {
                assert(seq![keep][0] == keep);
            }
            assert(forall|x: PaneId| #![trigger w.root.leaves().contains(x)] #![trigger ids(w.panes).contains(x)]
                w.root.leaves().contains(x) <==> ids(w.panes).contains(x));
            assert(keep < v.next_id) by {
                let a = choose|a: int| 0 <= a < v.root.leaves().len() && v.root.leaves()[a] == keep;
                assert(v.root.leaves()[a] < v.next_id);
            }
        }
    }

    /// Moves a tab to `at` in another pane, or to a new position in its own,
    /// and focuses the pane it lands in.
    ///
    /// `at` is an index into the target pane as it looks *now*, which is what
    /// a drop between two tabs means; a move inside one pane accounts for the
    /// hole the tab leaves behind.
    pub fn move_tab(&mut self, from: PaneId, index: usize, to: PaneId, at: usize)
        requires
            old(self)@.wf(),
        ensures
            final(self)@ == move_tab_view(old(self)@, from, index, to, at),
            final(self)@.wf(),
    {
        let ghost v = old(self)@;
        let i = match self.find(from) {
            Some(i) => i,
            None => {
                return;
            },
        };
        proof {
            lemma_slot(v.panes, from);
        }
        if index >= self.panes[i].tabs.len() {
            return;
        }
        if from == to {
            let ghost mid = self.panes@;
            let doc = self.panes[i].tabs.remove(index);
            let at = if at > index {
                at - 1
            } else {
                at
            };
            self.panes[i].put(doc, at);
            proof {
                lemma_views_update(mid, i as int, self.panes@[i as int]);
                assert(self.panes@ == mid.update(i as int, self.panes@[i as int]));
                lemma_wf_update(v, i as int, self@.panes[i as int]);
            }
            self.set_focus(to);
        } else {
            let ghost mid = self.panes@;
            let doc = match self.panes[i].take(index) {
                Some(d) => d,
                None => {
                    return;
                },
            };
            proof {
                lemma_views_update(mid, i as int, self.panes@[i as int]);
                assert(self.panes@ == mid.update(i as int, self.panes@[i as int]));
                lemma_wf_update(v, i as int, self@.panes[i as int]);
            }
            match self.find(to) {
                Some(j) => {
                    let ghost mid2 = self.panes@;
                    let ghost v2 = self@;
                    proof {
                        lemma_slot(v2.panes, to);
                        lemma_ids_update(v.panes, i as int, v2.panes[i as int]);
                    }
                    self.panes[j].put(doc, at);
                    proof {
                        lemma_views_update(mid2, j as int, self.panes@[j as int]);
                        assert(self.panes@ == mid2.update(j as int, self.panes@[j as int]));
                        lemma_wf_update(v2, j as int, self@.panes[j as int]);
                    }
                    self.set_focus(to);
                },
                None => {
                    let ghost mid2 = self.panes@;
                    self.panes[i].put(doc, index);
                    proof {
                        lemma_views_update(mid2, i as int, self.panes@[i as int]);
                        assert(self.panes@ == mid2.update(i as int, self.panes@[i as int]));
                        lemma_ids_update(v.panes, i as int, pane_views(mid2)[i as int]);
                        assert(ids(pane_views(mid2)) == ids(v.panes));
                        assert(pane_views(self.panes@) =~= v.panes.update(i as int, self@.panes[i as int]));
                        lemma_wf_update(v, i as int, self@.panes[i as int]);
                    }
                },
            }
        }
    }

    /// Sets the ratio of split `index`, counted in pre-order, held off both
    /// edges. Nothing changes when there is no such split.
    pub fn set_ratio(&mut self, index: usize, ratio: u32)
        requires
            old(self)@.wf(),
        ensures
            final(self)@ == (PanesView {
                root: old(self)@.root.with_ratio(index as int, clamp_ratio(ratio)),
                ..old(self)@
            }),
            final(self)@.wf(),
    {
        let r = if ratio < MIN_RATIO {
            MIN_RATIO
        } else if ratio > RATIO_SCALE - MIN_RATIO {
            RATIO_SCALE - MIN_RATIO
        } else {
            ratio
        };
        proof {
            self.root.lemma_splits();
            self.root.lemma_with_ratio(index as int, r);
            assert(self.panes@.len() == self.panes.len());
            lemma_leaves_fit(self@);
        }
        let mut root = Node::Leaf(0);
        std::mem::swap(&mut root, &mut self.root);
        self.root = root.set_ratio(index, r);
    }

    /// Evens out every split.
    pub fn equalize(&mut self)
        requires
            old(self)@.wf(),
        ensures
            final(self)@ == (PanesView { root: old(self)@.root.equalized(), ..old(self)@ }),
            final(self)@.wf(),
    {
        proof {
            self.root.lemma_equalized();
        }
        let mut root = Node::Leaf(0);
        std::mem::swap(&mut root, &mut self.root);
        self.root = root.equalize();
    }

    /// Closes every tab of every pane. The splits stay: closing the other
    /// splits is what undoes a layout.
    pub fn close_all(&mut self)
        requires
            old(self)@.wf(),
        ensures
            final(self)@ == emptied(old(self)@),
            final(self)@.wf(),
    {
        let n = self.panes.len();
        let mut i: usize = 0;
        while i < n
            invariant
                n == self@.panes.len() == old(self)@.panes.len(),
                i <= n,
                self@.wf(),
                self@.root == old(self)@.root,
                self@.focus == old(self)@.focus,
                self@.next_id == old(self)@.next_id,
                forall|j: int| 0 <= j < i ==> #[trigger] self@.panes[j] == (PaneView {
                    id: old(self)@.panes[j].id, tabs: Seq::empty(), active: 0 }),
                forall|j: int| i <= j < n ==> #[trigger] self@.panes[j] == old(self)@.panes[j],
            decreases n - i,
        {
            let p = self.pane_at_mut(i);
            p.clear();
            i = i + 1;
        }
        assert(self@.panes =~= emptied(old(self)@).panes);
    }

    /// Focuses the next pane in layout order, wrapping around.
    pub fn cycle(&mut self, forward: bool)
        requires
            old(self)@.wf(),
        ensures
            final(self)@ == cycle_view(old(self)@, forward),
            final(self)@.wf(),
    {
        let order = self.order();
        if order.len() < 2 {
            return;
        }
        let mut at: usize = 0;
        while at < order.len() && order[at] != self.focus
            invariant
                at <= order@.len(),
                order@ == self@.root.leaves(),
                forall|j: int| 0 <= j < at ==> order@[j] != self@.focus,
            decreases order@.len() - at,
        {
            at += 1;
        }
        if at == order.len() {
            return;
        }
        proof {
            lemma_place(order@, self.focus);
        }
        let n = order.len();
        let to: usize = if forward {
            if at + 1 == n {
                0
            } else {
                at + 1
            }
        } else {
            if at == 0 {
                n - 1
            } else {
                at - 1
            }
        };
        proof {
            let step: int = if forward {
                1
            } else {
                n - 1
            };
            lemma_mod_wrap(at + step, n as int);
            assert(to == (at + step) % (n as int));
        }
        let next = order[to];
        self.focus = next;
    }
}

pub proof fn lemma_mod_wrap(x: int, n: int)
    requires
        0 <= x < 2 * n,
    ensures
        x % n == if x < n {
            x
        } else {
            x - n
        },
{
    if x < n {
        vstd::arithmetic::div_mod::lemma_small_mod(x as nat, n as nat);
    } else {
        vstd::arithmetic::div_mod::lemma_small_mod((x - n) as nat, n as nat);
        vstd::arithmetic::div_mod::lemma_mod_sub_multiples_vanish(x, n);
    }
}

/// The tree has as many leaves as there are panes, so it fits in memory.
pub proof fn lemma_leaves_fit(v: PanesView)
    requires
        v.wf(),
    ensures
        v.root.leaves().len() == v.panes.len(),
{
    let l = v.root.leaves();
    let d = ids(v.panes);
    assert forall|x: PaneId| l.to_set().contains(x) <==> d.to_set().contains(x) by {}
    assert(l.to_set() =~= d.to_set());
    l.unique_seq_to_set();
    d.unique_seq_to_set();
}


// -------------------------------------------------------------------- laws

broadcast use vstd::multiset::group_multiset_axioms;

/// Every document open in the layout, wherever it is.
pub open spec fn all_docs(ps: Seq<PaneView>) -> Multiset<Document>
    decreases ps.len(),
{
    if ps.len() == 0 {
        Multiset::empty()
    } else {
        all_docs(ps.drop_last()).add(ps.last().tabs.to_multiset())
    }
}

pub proof fn lemma_all_docs_update(ps: Seq<PaneView>, i: int, p: PaneView)
    requires
        0 <= i < ps.len(),
    ensures
        all_docs(ps.update(i, p)).add(ps[i].tabs.to_multiset()) =~= all_docs(ps).add(p.tabs.to_multiset()),
    decreases ps.len(),
{
    let q = ps.update(i, p);
    if i == ps.len() - 1 {
        assert(q.drop_last() =~= ps.drop_last());
        assert(q.last() == p);
        assert(all_docs(q) == all_docs(ps.drop_last()).add(p.tabs.to_multiset()));
        assert(all_docs(ps) == all_docs(ps.drop_last()).add(ps[i].tabs.to_multiset()));
        let a = all_docs(ps.drop_last());
        assert forall|d: Document| #[trigger] all_docs(q).add(ps[i].tabs.to_multiset()).count(d) == all_docs(ps).add(p.tabs.to_multiset()).count(d) by {
            assert(all_docs(q).count(d) == a.count(d) + p.tabs.to_multiset().count(d));
        }
    } else {
        assert(q.drop_last() =~= ps.drop_last().update(i, p));
        assert(q.last() == ps.last());
        assert(ps.drop_last()[i] == ps[i]);
        lemma_all_docs_update(ps.drop_last(), i, p);
        let l = ps.last().tabs.to_multiset();
        assert(all_docs(q) == all_docs(q.drop_last()).add(l));
        assert(all_docs(ps) == all_docs(ps.drop_last()).add(l));
        let iq = all_docs(q.drop_last()).add(ps[i].tabs.to_multiset());
        let ip = all_docs(ps.drop_last()).add(p.tabs.to_multiset());
        assert forall|d: Document| #[trigger] all_docs(q).add(ps[i].tabs.to_multiset()).count(d) == all_docs(ps).add(p.tabs.to_multiset()).count(d) by {
            assert(iq.count(d) == ip.count(d));
        }
    }
}

pub proof fn lemma_all_docs_remove(ps: Seq<PaneView>, i: int)
    requires
        0 <= i < ps.len(),
    ensures
        all_docs(ps.remove(i)).add(ps[i].tabs.to_multiset()) =~= all_docs(ps),
    decreases ps.len(),
{
    if i == ps.len() - 1 {
        assert(ps.remove(i) =~= ps.drop_last());
        assert(all_docs(ps) == all_docs(ps.drop_last()).add(ps[i].tabs.to_multiset()));
    } else {
        assert(ps.remove(i).drop_last() =~= ps.drop_last().remove(i));
        assert(ps.remove(i).last() == ps.last());
        lemma_all_docs_remove(ps.drop_last(), i);
        assert(all_docs(ps.remove(i)) == all_docs(ps.remove(i).drop_last()).add(ps.last().tabs.to_multiset()));
        assert(all_docs(ps) == all_docs(ps.drop_last()).add(ps.last().tabs.to_multiset()));
    }
}

/// Splitting opens and closes no document: the one it moves lands in the
/// new pane.
pub proof fn law_split_keeps_documents(v: PanesView, axis: Axis)
    requires
        v.wf(),
        v.next_id < u64::MAX,
    ensures
        all_docs(split_view(v, axis).panes) =~= all_docs(v.panes),
{
    broadcast use vstd::seq_lib::group_to_multiset_ensures;
    lemma_slot(v.panes, v.focus);
    let i = slot(v.panes, v.focus);
    let src = v.panes[i];
    let t = taken(src, src.active);
    let mid = v.panes.update(i, t);
    lemma_all_docs_update(v.panes, i, t);
    let w = split_view(v, axis);
    assert(w.panes.drop_last() =~= mid);
    let np = w.panes.last();
    if src.active < src.tabs.len() {
        let x = src.tabs[src.active as int];
        assert(seq![x] =~= Seq::<Document>::empty().push(x));
        assert(seq![x].to_multiset() =~= Multiset::<Document>::empty().insert(x));
        assert(src.tabs.to_multiset() =~= t.tabs.to_multiset().insert(x));
        assert(np.tabs == seq![x]);
    } else {
        assert(Seq::<Document>::empty().to_multiset() =~= Multiset::<Document>::empty());
        assert(np.tabs == Seq::<Document>::empty());
    }
    assert(src.tabs.to_multiset() =~= t.tabs.to_multiset().add(np.tabs.to_multiset()));
    assert(all_docs(w.panes) == all_docs(mid).add(np.tabs.to_multiset()));
    assert forall|d: Document| #[trigger] all_docs(w.panes).count(d) == all_docs(v.panes).count(d) by {
        assert(all_docs(mid).add(src.tabs.to_multiset()).count(d) == all_docs(v.panes).add(t.tabs.to_multiset()).count(d));
    }
}

/// Closing a pane closes no document: its tabs go to the pane that takes
/// over.
pub proof fn law_close_keeps_documents(v: PanesView)
    requires
        v.wf(),
    ensures
        all_docs(close_view(v).panes) =~= all_docs(v.panes),
{
    broadcast use vstd::seq_lib::group_to_multiset_ensures;
    let heir = heir_of(v);
    if v.panes.len() >= 2 && heir != v.focus {
        lemma_close_wf(v);
        lemma_slot(v.panes, v.focus);
        let i = slot(v.panes, v.focus);
        let rest = v.panes.remove(i);
        lemma_all_docs_remove(v.panes, i);
        v.root.lemma_sibling(v.focus);
        let sl = v.root.sibling_m(v.focus)->0.leaves();
        assert(sl.contains(heir)) by {
            assert(sl[0] == heir);
        }
        assert(ids(rest) =~= ids(v.panes).remove(i));
        lemma_remove_no_dup(ids(v.panes), i);
        assert(ids(v.panes)[i] == v.focus);
        assert(ids(rest).contains(heir));
        let h = slot(rest, heir);
        lemma_slot(rest, heir);
        let a = adopted(rest[h], v.panes[i].tabs);
        lemma_all_docs_update(rest, h, a);
        vstd::seq_lib::lemma_multiset_commutative(rest[h].tabs, v.panes[i].tabs);
        let w = close_view(v);
        assert(w.panes == rest.update(h, a));
        assert forall|d: Document| #[trigger] all_docs(w.panes).count(d) == all_docs(v.panes).count(d) by {
            assert(all_docs(rest.update(h, a)).add(rest[h].tabs.to_multiset()).count(d) == all_docs(rest).add(a.tabs.to_multiset()).count(d));
            assert(all_docs(rest).add(v.panes[i].tabs.to_multiset()).count(d) == all_docs(v.panes).count(d));
        }
    }
}

/// Dragging a tab opens and closes no document.
pub proof fn law_move_tab_keeps_documents(v: PanesView, from: PaneId, index: usize, to: PaneId, at: usize)
    requires
        v.wf(),
    ensures
        all_docs(move_tab_view(v, from, index, to, at).panes) =~= all_docs(v.panes),
{
    broadcast use vstd::seq_lib::group_to_multiset_ensures;
    if ids(v.panes).contains(from) {
        lemma_slot(v.panes, from);
        let i = slot(v.panes, from);
        let p = v.panes[i];
        if index < p.tabs.len() {
            let doc = p.tabs[index as int];
            if from == to {
                let rest = PaneView { tabs: p.tabs.remove(index as int), ..p };
                let at2 = if at > index {
                    (at - 1) as usize
                } else {
                    at
                };
                let q = put_at(rest, doc, at2);
                lemma_all_docs_update(v.panes, i, q);
                assert(q.tabs.to_multiset() =~= p.tabs.to_multiset());
                let w = move_tab_view(v, from, index, to, at);
                assert(w.panes == v.panes.update(i, q));
                assert forall|d: Document| #[trigger] all_docs(w.panes).count(d) == all_docs(v.panes).count(d) by {
                    assert(all_docs(v.panes.update(i, q)).add(p.tabs.to_multiset()).count(d) == all_docs(v.panes).add(q.tabs.to_multiset()).count(d));
                }
            } else if !ids(v.panes).contains(to) {
                let q = put_at(taken(p, index), doc, index);
                lemma_all_docs_update(v.panes, i, q);
                assert(q.tabs.to_multiset() =~= p.tabs.to_multiset());
                let w = move_tab_view(v, from, index, to, at);
                assert(w.panes == v.panes.update(i, q));
                assert forall|d: Document| #[trigger] all_docs(w.panes).count(d) == all_docs(v.panes).count(d) by {
                    assert(all_docs(v.panes.update(i, q)).add(p.tabs.to_multiset()).count(d) == all_docs(v.panes).add(q.tabs.to_multiset()).count(d));
                }
            } else {
                let t = taken(p, index);
                let ps = v.panes.update(i, t);
                lemma_all_docs_update(v.panes, i, t);
                lemma_ids_update(v.panes, i, t);
                lemma_slot(v.panes, to);
                let j = slot(v.panes, to);
                let q = put_at(ps[j], doc, at);
                lemma_all_docs_update(ps, j, q);
                assert(p.tabs.to_multiset() =~= t.tabs.to_multiset().insert(doc));
                assert(q.tabs.to_multiset() =~= ps[j].tabs.to_multiset().insert(doc));
                let w = move_tab_view(v, from, index, to, at);
                assert(w.panes == ps.update(j, q));
                assert forall|d: Document| #[trigger] all_docs(w.panes).count(d) == all_docs(v.panes).count(d) by {
                    assert(all_docs(ps.update(j, q)).add(ps[j].tabs.to_multiset()).count(d) == all_docs(ps).add(q.tabs.to_multiset()).count(d));
                    assert(all_docs(v.panes.update(i, t)).add(p.tabs.to_multiset()).count(d) == all_docs(v.panes).add(t.tabs.to_multiset()).count(d));
                }
            }
        }
    }
}

/// The last pane cannot be closed.
pub proof fn law_last_pane_stays(v: PanesView)
    requires
        v.wf(),
        v.panes.len() == 1,
    ensures
        close_view(v) == v,
{
}

/// Cycling forward and then back returns the focus to where it was.
pub proof fn law_cycle_round_trip(v: PanesView)
    requires
        v.wf(),
    ensures
        cycle_view(cycle_view(v, true), false) == v,
{
    let order = v.root.leaves();
    if order.len() >= 2 {
        lemma_place(order, v.focus);
        let n = order.len() as int;
        let at = place(order, v.focus);
        lemma_mod_wrap(at + 1, n);
        let b = (at + 1) % n;
        let w = cycle_view(v, true);
        assert(order.contains(w.focus)) by {
            assert(order[b] == w.focus);
        }
        lemma_place(order, w.focus);
        assert(place(order, w.focus) == b);
        lemma_mod_wrap(b + n - 1, n);
        assert(order[(b + n - 1) % n] == v.focus);
    }
}


/// Closing a tab other than the one shown leaves the same document shown,
/// and every other tab in its order; closing the shown tab shows its left
/// neighbour, or the new first tab when it was first.
pub proof fn law_take_keeps_the_shown_tab(p: PaneView, index: usize)
    requires
        index < p.tabs.len() <= usize::MAX,
        p.active < p.tabs.len(),
    ensures
        ({
            let q = taken(p, index);
            &&& q.tabs.len() == p.tabs.len() - 1
            &&& forall|i: int| 0 <= i < index ==> q.tabs[i] == p.tabs[i]
            &&& forall|i: int| index <= i < q.tabs.len() ==> q.tabs[i] == p.tabs[i + 1]
            &&& p.active != index ==> q.active < q.tabs.len() && q.tabs[q.active as int] == p.tabs[p.active as int]
            &&& p.active == index && index > 0 ==> q.tabs[q.active as int] == p.tabs[index - 1]
            &&& p.active == index && index == 0 && q.tabs.len() > 0 ==> q.active == 0
        }),
{
}

/// Showing the next tab and then the previous one shows the tab that was
/// shown before.
pub proof fn law_tab_cycle_round_trip(p: PaneView)
    requires
        p.active < p.tabs.len() <= usize::MAX,
    ensures
        cycled(cycled(p, true), false) == p,
{
    let n = p.tabs.len() as int;
    if n >= 2 {
        lemma_mod_wrap(p.active + 1, n);
        let b = (p.active + 1) % n;
        let q = cycled(p, true);
        assert(q.active == b && q.tabs == p.tabs);
        lemma_mod_wrap(b + n - 1, n);
        assert(cycled(q, false).active == p.active);
    }
}

/// The documents of the panes whose ids are in `s`.
pub open spec fn docs_in(ps: Seq<PaneView>, s: Set<PaneId>) -> Multiset<Document>
    decreases ps.len(),
{
    if ps.len() == 0 {
        Multiset::empty()
    } else {
        docs_in(ps.drop_last(), s).add(if s.contains(ps.last().id) {
            ps.last().tabs.to_multiset()
        } else {
            Multiset::empty()
        })
    }
}

pub proof fn lemma_docs_in_all(ps: Seq<PaneView>, s: Set<PaneId>)
    requires
        forall|i: int| 0 <= i < ps.len() ==> s.contains(#[trigger] ps[i].id),
    ensures
        docs_in(ps, s) == all_docs(ps),
    decreases ps.len(),
{
    if ps.len() > 0 {
        assert(s.contains(ps[ps.len() - 1].id));
        assert forall|i: int| 0 <= i < ps.drop_last().len() implies s.contains(#[trigger] ps.drop_last()[i].id) by {
            assert(ps.drop_last()[i] == ps[i]);
        }
        lemma_docs_in_all(ps.drop_last(), s);
    }
}

pub proof fn lemma_docs_in_absent(ps: Seq<PaneView>, s: Set<PaneId>, x: PaneId)
    requires
        !ids(ps).contains(x),
    ensures
        docs_in(ps, s.insert(x)) == docs_in(ps, s),
    decreases ps.len(),
{
    if ps.len() > 0 {
        let p = ps.drop_last();
        assert(!ids(p).contains(x)) by {
            if ids(p).contains(x) {
                let i = choose|i: int| 0 <= i < ids(p).len() && ids(p)[i] == x;
                assert(ids(ps)[i] == x);
            }
        }
        assert(ps.last().id != x) by {
            assert(ids(ps)[ps.len() - 1] == ps.last().id);
        }
        lemma_docs_in_absent(p, s, x);
    }
}

pub proof fn lemma_docs_in_insert(ps: Seq<PaneView>, s: Set<PaneId>, x: PaneId)
    requires
        ids(ps).no_duplicates(),
        ids(ps).contains(x),
        !s.contains(x),
    ensures
        docs_in(ps, s.insert(x)) =~= docs_in(ps, s).add(ps[slot(ps, x)].tabs.to_multiset()),
    decreases ps.len(),
{
    let p = ps.drop_last();
    let l = ps.last();
    lemma_slot(ps, x);
    assert(ids(p) =~= ids(ps).drop_last());
    assert(ids(p).no_duplicates()) by {
        assert forall|i: int, j: int| 0 <= i < ids(p).len() && 0 <= j < ids(p).len() && i != j implies ids(p)[i] != ids(p)[j] by {
            assert(ids(p)[i] == ids(ps)[i] && ids(p)[j] == ids(ps)[j]);
        }
    }
    if l.id == x {
        assert(slot(ps, x) == ps.len() - 1);
        assert(!ids(p).contains(x)) by {
            if ids(p).contains(x) {
                let i = choose|i: int| 0 <= i < ids(p).len() && ids(p)[i] == x;
                assert(ids(ps)[i] == ids(ps)[ps.len() - 1]);
            }
        }
        lemma_docs_in_absent(p, s, x);
    } else {
        assert(ids(p).contains(x)) by {
            let i = slot(ps, x);
            assert(i != ps.len() - 1);
            assert(ids(p)[i] == x);
        }
        lemma_docs_in_insert(p, s, x);
        lemma_slot(p, x);
        assert(ps[slot(p, x)].id == x);
        assert(slot(ps, x) == slot(p, x));
    }
}

/// What `gather` collects is the documents of the panes it visits.
pub proof fn lemma_gather(ps: Seq<PaneView>, order: Seq<PaneId>, keep: PaneId)
    requires
        ids(ps).no_duplicates(),
        order.no_duplicates(),
        forall|i: int| 0 <= i < order.len() ==> ids(ps).contains(#[trigger] order[i]),
    ensures
        gather(ps, order, keep).to_multiset() =~= docs_in(ps, order.to_set().remove(keep)),
    decreases order.len(),
{
    broadcast use vstd::seq_lib::group_to_multiset_ensures;
    if order.len() == 0 {
        assert(order.to_set().remove(keep) =~= Set::<PaneId>::empty());
        lemma_docs_in_empty(ps);
    } else {
        let o = order.drop_last();
        let id = order.last();
        assert(o.no_duplicates()) by {
            assert forall|i: int, j: int| 0 <= i < o.len() && 0 <= j < o.len() && i != j implies o[i] != o[j] by {
                assert(o[i] == order[i] && o[j] == order[j]);
            }
        }
        assert forall|i: int| 0 <= i < o.len() implies ids(ps).contains(#[trigger] o[i]) by {
            assert(o[i] == order[i]);
        }
        lemma_gather(ps, o, keep);
        assert(!o.contains(id)) by {
            if o.contains(id) {
                let i = choose|i: int| 0 <= i < o.len() && o[i] == id;
                assert(order[i] == order[order.len() - 1]);
            }
        }
        assert(ids(ps).contains(id)) by {
            assert(order[order.len() - 1] == id);
        }
        let so = o.to_set().remove(keep);
        assert(order =~= o.push(id));
        let g = gather(ps, o, keep);
        if id == keep {
            assert(order.to_set().remove(keep) =~= so);
            assert(g + Seq::<Document>::empty() =~= g);
        } else {
            assert(order.to_set().remove(keep) =~= so.insert(id));
            lemma_docs_in_insert(ps, so, id);
            vstd::seq_lib::lemma_multiset_commutative(g, ps[slot(ps, id)].tabs);
        }
    }
}

pub proof fn lemma_docs_in_empty(ps: Seq<PaneView>)
    ensures
        docs_in(ps, Set::empty()) =~= Multiset::empty(),
    decreases ps.len(),
{
    if ps.len() > 0 {
        lemma_docs_in_empty(ps.drop_last());
    }
}

/// Closing every other pane closes no document: the focused pane gathers
/// them all.
pub proof fn law_only_keeps_documents(v: PanesView)
    requires
        v.wf(),
    ensures
        all_docs(only_view(v).panes) =~= all_docs(v.panes),
{
    broadcast use vstd::seq_lib::group_to_multiset_ensures;
    if v.panes.len() >= 2 {
        let leaves = v.root.leaves();
        let f = v.focus;
        lemma_slot(v.panes, f);
        let k = slot(v.panes, f);
        assert forall|i: int| 0 <= i < leaves.len() implies ids(v.panes).contains(#[trigger] leaves[i]) by {
            assert(leaves.contains(leaves[i]));
        }
        lemma_gather(v.panes, leaves, f);
        let g = gather(v.panes, leaves, f);
        let rest = leaves.to_set().remove(f);
        lemma_docs_in_insert(v.panes, rest, f);
        assert(rest.insert(f) =~= leaves.to_set());
        assert forall|i: int| 0 <= i < v.panes.len() implies leaves.to_set().contains(#[trigger] v.panes[i].id) by {
            assert(ids(v.panes)[i] == v.panes[i].id);
            assert(ids(v.panes).contains(v.panes[i].id));
        }
        lemma_docs_in_all(v.panes, leaves.to_set());
        let w = only_view(v);
        let p = adopted(v.panes[k], g);
        assert(w.panes == seq![p]);
        assert(seq![p].drop_last() =~= Seq::<PaneView>::empty());
        assert(seq![p].last() == p);
        assert(all_docs(Seq::<PaneView>::empty()) == Multiset::<Document>::empty());
        vstd::seq_lib::lemma_multiset_commutative(v.panes[k].tabs, g);
        assert(p.tabs == v.panes[k].tabs + g);
        let a = all_docs(w.panes);
        assert(a == Multiset::<Document>::empty().add(p.tabs.to_multiset()));
        assert forall|d: Document| #[trigger] a.count(d) == all_docs(v.panes).count(d) by {
            assert(p.tabs.to_multiset().count(d) == v.panes[k].tabs.to_multiset().count(d) + g.to_multiset().count(d));
            assert(docs_in(v.panes, rest.insert(f)).count(d) == docs_in(v.panes, rest).count(d) + v.panes[k].tabs.to_multiset().count(d));
        }
    }
}


impl Node {
    pub proof fn lemma_without_absent(self, x: PaneId)
        requires
            !self.leaves().contains(x),
        ensures
            self.without_m(x) == Some(self),
        decreases self,
    {
        match self {
            Node::Leaf(l) => {
                assert(self.leaves()[0] == l);
            },
            Node::Split { first, second, .. } => {
                lemma_concat_contains(first.leaves(), second.leaves(), x);
                first.lemma_without_absent(x);
                second.lemma_without_absent(x);
            },
        }
    }

    pub proof fn lemma_split_undone(self, f: PaneId, axis: Axis, id: PaneId)
        requires
            self.leaves().contains(f),
            !self.leaves().contains(id),
        ensures
            self.split_m(f, axis, id).sibling_m(id) == Some(Node::Leaf(f)),
            self.split_m(f, axis, id).without_m(id) == Some(self),
        decreases self,
    {
        match self {
            Node::Leaf(l) => {
                assert(self.leaves()[0] == l);
                reveal_with_fuel(Node::sibling_m, 2);
                reveal_with_fuel(Node::without_m, 2);
                assert(seq![f][0] == f);
                if seq![f].contains(id) {
                    let i = choose|i: int| 0 <= i < 1 && seq![f][i] == id;
                    assert(self.leaves().contains(id));
                }
                assert(seq![id][0] == id);
            },
            Node::Split { first, second, .. } => {
                lemma_concat_contains(first.leaves(), second.leaves(), f);
                lemma_concat_contains(first.leaves(), second.leaves(), id);
                if first.leaves().contains(f) {
                    first.lemma_split_undone(f, axis, id);
                    second.lemma_without_absent(id);
                    first.lemma_split_leaves_contains(f, axis, id);
                } else {
                    second.lemma_split_undone(f, axis, id);
                    first.lemma_without_absent(id);
                    second.lemma_split_leaves_contains(f, axis, id);
                }
            },
        }
    }

    pub proof fn lemma_split_leaves_contains(self, f: PaneId, axis: Axis, id: PaneId)
        requires
            self.leaves().contains(f),
        ensures
            self.split_m(f, axis, id).leaves().contains(id),
        decreases self,
    {
        match self {
            Node::Leaf(l) => {
                assert(self.leaves()[0] == l);
                reveal_with_fuel(Node::leaves, 2);
                assert(self.split_m(f, axis, id).leaves()[1] == id);
            },
            Node::Split { first, second, .. } => {
                lemma_concat_contains(first.leaves(), second.leaves(), f);
                if first.leaves().contains(f) {
                    first.lemma_split_leaves_contains(f, axis, id);
                    lemma_concat_contains(first.split_m(f, axis, id).leaves(), second.leaves(), id);
                } else {
                    second.lemma_split_leaves_contains(f, axis, id);
                    lemma_concat_contains(first.leaves(), second.split_m(f, axis, id).leaves(), id);
                }
            },
        }
    }
}

/// Closing the pane a split just made restores the tree and the focus.
pub proof fn law_close_undoes_split(v: PanesView, axis: Axis)
    requires
        v.wf(),
        v.next_id < u64::MAX,
    ensures
        close_view(split_view(v, axis)).root == v.root,
        close_view(split_view(v, axis)).focus == v.focus,
        close_view(split_view(v, axis)).panes.len() == v.panes.len(),
{
    let leaves = v.root.leaves();
    assert(!leaves.contains(v.next_id)) by {
        if leaves.contains(v.next_id) {
            let k = choose|k: int| 0 <= k < leaves.len() && leaves[k] == v.next_id;
            assert(leaves[k] < v.next_id);
        }
    }
    v.root.lemma_split_undone(v.focus, axis, v.next_id);
    let w = split_view(v, axis);
    lemma_split_wf(v, axis);
    assert(Node::Leaf(v.focus).leaves()[0] == v.focus);
    assert(heir_of(w) == v.focus);
    assert(w.panes.len() == v.panes.len() + 1);
    lemma_leaves_fit(v);
    lemma_slot(w.panes, w.focus);
    lemma_ids_update(v.panes, slot(v.panes, v.focus), taken(v.panes[slot(v.panes, v.focus)], v.panes[slot(v.panes, v.focus)].active));
    lemma_slot(v.panes, v.focus);
    let rest = w.panes.remove(slot(w.panes, w.focus));
    assert(ids(rest) =~= ids(w.panes).remove(slot(w.panes, w.focus)));
    lemma_remove_no_dup(ids(w.panes), slot(w.panes, w.focus));
    assert(ids(w.panes)[slot(w.panes, w.focus)] == w.focus);
    assert(ids(w.panes).contains(v.focus)) by {
        assert(ids(w.panes)[slot(v.panes, v.focus)] == v.focus);
    }
    assert(ids(rest).contains(v.focus));
    lemma_slot(rest, v.focus);
}

} // verus!
