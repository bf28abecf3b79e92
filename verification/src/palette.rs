//! The command palette: the only place the application exposes its
//! commands.
//!
//! Four modes share one text field: commands, file names, file contents, and
//! a folder picker, so every action is reachable from a single keystroke and
//! nothing needs permanent chrome. Drawing it is the caller's part; what it
//! lists, in what order, and what choosing a row means is decided here.

use vstd::prelude::*;

use crate::config::{str_eq, strings_view};
use crate::index::chars_view;
use crate::fuzzy::{fuzzy_score, Fuzzy, Query, MAX_QUERY};
use crate::index::{FileEntry, Hit};
use crate::paths::{name_of, name_or_path, parent, path_parent};
use crate::text::{append, chars_of, decimal, push_char, push_decimal, trim, trimmed};

verus! {

/// Everything the palette can run.
#[derive(Debug, Clone, Copy, PartialEq, Eq, Structural)]
pub enum Command {
    OpenVault,
    FindFile,
    SearchContent,
    ReloadFile,
    RevealInTree,
    CloseTab,
    CloseOthers,
    CloseAll,
    NextTab,
    PrevTab,
    ToggleTree,
    TreeLeft,
    TreeRight,
    TreeBottom,
    ToggleTheme,
    IncreaseFont,
    DecreaseFont,
    ToggleDecorations,
    CopyPath,
    OpenExternally,
    Quit,
}

/// Number of commands.
pub const COMMAND_COUNT: usize = 21;

/// Every command, in the order an idle palette lists them.
pub open spec fn all_commands() -> Seq<Command> {
    seq![
        Command::FindFile,
        Command::SearchContent,
        Command::OpenVault,
        Command::ReloadFile,
        Command::RevealInTree,
        Command::CloseTab,
        Command::CloseOthers,
        Command::CloseAll,
        Command::NextTab,
        Command::PrevTab,
        Command::ToggleTree,
        Command::TreeLeft,
        Command::TreeRight,
        Command::TreeBottom,
        Command::ToggleTheme,
        Command::IncreaseFont,
        Command::DecreaseFont,
        Command::ToggleDecorations,
        Command::CopyPath,
        Command::OpenExternally,
        Command::Quit,
    ]
}

impl Command {
    pub open spec fn spec_id(self) -> Seq<char> {
        match self {
            Command::OpenVault => "open-vault"@,
            Command::FindFile => "find-file"@,
            Command::SearchContent => "search-content"@,
            Command::ReloadFile => "reload-file"@,
            Command::RevealInTree => "reveal-in-tree"@,
            Command::CloseTab => "close-tab"@,
            Command::CloseOthers => "close-others"@,
            Command::CloseAll => "close-all"@,
            Command::NextTab => "next-tab"@,
            Command::PrevTab => "prev-tab"@,
            Command::ToggleTree => "toggle-tree"@,
            Command::TreeLeft => "tree-left"@,
            Command::TreeRight => "tree-right"@,
            Command::TreeBottom => "tree-bottom"@,
            Command::ToggleTheme => "toggle-theme"@,
            Command::IncreaseFont => "increase-font"@,
            Command::DecreaseFont => "decrease-font"@,
            Command::ToggleDecorations => "toggle-decorations"@,
            Command::CopyPath => "copy-path"@,
            Command::OpenExternally => "open-externally"@,
            Command::Quit => "quit"@,
        }
    }

    pub open spec fn spec_title(self) -> Seq<char> {
        match self {
            Command::OpenVault => "Open Vault Folder"@,
            Command::FindFile => "Find File or Folder by Name"@,
            Command::SearchContent => "Search File Contents"@,
            Command::ReloadFile => "Reload Current File"@,
            Command::RevealInTree => "Reveal Current File in Tree"@,
            Command::CloseTab => "Close Tab"@,
            Command::CloseOthers => "Close Other Tabs"@,
            Command::CloseAll => "Close All Tabs"@,
            Command::NextTab => "Next Tab"@,
            Command::PrevTab => "Previous Tab"@,
            Command::ToggleTree => "Toggle File Tree"@,
            Command::TreeLeft => "File Tree: Dock Left"@,
            Command::TreeRight => "File Tree: Dock Right"@,
            Command::TreeBottom => "File Tree: Dock Bottom"@,
            Command::ToggleTheme => "Toggle Light / Dark Theme"@,
            Command::IncreaseFont => "Increase Font Size"@,
            Command::DecreaseFont => "Decrease Font Size"@,
            Command::ToggleDecorations => "Toggle Window Decorations"@,
            Command::CopyPath => "Copy Current File Path"@,
            Command::OpenExternally => "Open Current File in Default App"@,
            Command::Quit => "Quit Faust"@,
        }
    }

    pub open spec fn spec_hint(self) -> Seq<char> {
        match self {
            Command::OpenVault => ""@,
            Command::FindFile => "Ctrl P"@,
            Command::SearchContent => "Ctrl Shift F"@,
            Command::ReloadFile => "Ctrl R"@,
            Command::RevealInTree => ""@,
            Command::CloseTab => "Ctrl W"@,
            Command::CloseOthers => ""@,
            Command::CloseAll => ""@,
            Command::NextTab => "Ctrl Tab"@,
            Command::PrevTab => "Ctrl Shift Tab"@,
            Command::ToggleTree => "Ctrl B"@,
            Command::TreeLeft => ""@,
            Command::TreeRight => ""@,
            Command::TreeBottom => ""@,
            Command::ToggleTheme => ""@,
            Command::IncreaseFont => "Ctrl +"@,
            Command::DecreaseFont => "Ctrl -"@,
            Command::ToggleDecorations => ""@,
            Command::CopyPath => ""@,
            Command::OpenExternally => ""@,
            Command::Quit => "Ctrl Q"@,
        }
    }

    /// Stable identifier, used for the persisted most-recently-used list.
    pub fn id(self) -> (r: &'static str)
        ensures
            r@ == self.spec_id(),
    {
        match self {
            Command::OpenVault => "open-vault",
            Command::FindFile => "find-file",
            Command::SearchContent => "search-content",
            Command::ReloadFile => "reload-file",
            Command::RevealInTree => "reveal-in-tree",
            Command::CloseTab => "close-tab",
            Command::CloseOthers => "close-others",
            Command::CloseAll => "close-all",
            Command::NextTab => "next-tab",
            Command::PrevTab => "prev-tab",
            Command::ToggleTree => "toggle-tree",
            Command::TreeLeft => "tree-left",
            Command::TreeRight => "tree-right",
            Command::TreeBottom => "tree-bottom",
            Command::ToggleTheme => "toggle-theme",
            Command::IncreaseFont => "increase-font",
            Command::DecreaseFont => "decrease-font",
            Command::ToggleDecorations => "toggle-decorations",
            Command::CopyPath => "copy-path",
            Command::OpenExternally => "open-externally",
            Command::Quit => "quit",
        }
    }

    /// What the palette shows.
    pub fn title(self) -> (r: &'static str)
        ensures
            r@ == self.spec_title(),
    {
        match self {
            Command::OpenVault => "Open Vault Folder",
            Command::FindFile => "Find File or Folder by Name",
            Command::SearchContent => "Search File Contents",
            Command::ReloadFile => "Reload Current File",
            Command::RevealInTree => "Reveal Current File in Tree",
            Command::CloseTab => "Close Tab",
            Command::CloseOthers => "Close Other Tabs",
            Command::CloseAll => "Close All Tabs",
            Command::NextTab => "Next Tab",
            Command::PrevTab => "Previous Tab",
            Command::ToggleTree => "Toggle File Tree",
            Command::TreeLeft => "File Tree: Dock Left",
            Command::TreeRight => "File Tree: Dock Right",
            Command::TreeBottom => "File Tree: Dock Bottom",
            Command::ToggleTheme => "Toggle Light / Dark Theme",
            Command::IncreaseFont => "Increase Font Size",
            Command::DecreaseFont => "Decrease Font Size",
            Command::ToggleDecorations => "Toggle Window Decorations",
            Command::CopyPath => "Copy Current File Path",
            Command::OpenExternally => "Open Current File in Default App",
            Command::Quit => "Quit Faust",
        }
    }

    /// Shortcut shown on the right of the row, if there is one.
    pub fn hint(self) -> (r: &'static str)
        ensures
            r@ == self.spec_hint(),
    {
        match self {
            Command::OpenVault => "",
            Command::FindFile => "Ctrl P",
            Command::SearchContent => "Ctrl Shift F",
            Command::ReloadFile => "Ctrl R",
            Command::RevealInTree => "",
            Command::CloseTab => "Ctrl W",
            Command::CloseOthers => "",
            Command::CloseAll => "",
            Command::NextTab => "Ctrl Tab",
            Command::PrevTab => "Ctrl Shift Tab",
            Command::ToggleTree => "Ctrl B",
            Command::TreeLeft => "",
            Command::TreeRight => "",
            Command::TreeBottom => "",
            Command::ToggleTheme => "",
            Command::IncreaseFont => "Ctrl +",
            Command::DecreaseFont => "Ctrl -",
            Command::ToggleDecorations => "",
            Command::CopyPath => "",
            Command::OpenExternally => "",
            Command::Quit => "Ctrl Q",
        }
    }

    /// Every command, in the order an idle palette lists them.
    pub fn all() -> (r: Vec<Command>)
        ensures
            r@ == all_commands(),
    {
        let r: Vec<Command> = vec![
            Command::FindFile,
            Command::SearchContent,
            Command::OpenVault,
            Command::ReloadFile,
            Command::RevealInTree,
            Command::CloseTab,
            Command::CloseOthers,
            Command::CloseAll,
            Command::NextTab,
            Command::PrevTab,
            Command::ToggleTree,
            Command::TreeLeft,
            Command::TreeRight,
            Command::TreeBottom,
            Command::ToggleTheme,
            Command::IncreaseFont,
            Command::DecreaseFont,
            Command::ToggleDecorations,
            Command::CopyPath,
            Command::OpenExternally,
            Command::Quit,
        ];
        assert(r@ =~= all_commands());
        r
    }

}


/// The first command in `cs` whose id is `id`.
pub open spec fn find_id(cs: Seq<Command>, id: Seq<char>) -> Option<Command>
    decreases cs.len(),
{
    if cs.len() == 0 {
        None
    } else if cs[0].spec_id() == id {
        Some(cs[0])
    } else {
        find_id(cs.drop_first(), id)
    }
}

impl Command {
    /// The command whose id is `id`.
    pub fn from_id(id: &str) -> (r: Option<Command>)
        ensures
            r == find_id(all_commands(), id@),
    {
        let all = Command::all();
        let mut i: usize = 0;
        assert(all@.skip(0) =~= all@);
        while i < all.len()
            invariant
                i <= all@.len(),
                all@ == all_commands(),
                find_id(all_commands(), id@) == find_id(all@.skip(i as int), id@),
            decreases all@.len() - i,
        {
            assert(all@.skip(i as int).drop_first() =~= all@.skip(i + 1));
            if str_eq(all[i].id(), id) {
                return Some(all[i]);
            }
            i += 1;
        }
        None
    }
}

/// No two commands share an id, so the persisted list names each command
/// unambiguously.
pub proof fn law_command_ids_unique(a: Command, b: Command)
    ensures
        a.spec_id() == b.spec_id() ==> a == b,
{

    reveal_strlit("open-vault");
    reveal_strlit("find-file");
    reveal_strlit("search-content");
    reveal_strlit("reload-file");
    reveal_strlit("reveal-in-tree");
    reveal_strlit("close-tab");
    reveal_strlit("close-others");
    reveal_strlit("close-all");
    reveal_strlit("next-tab");
    reveal_strlit("prev-tab");
    reveal_strlit("toggle-tree");
    reveal_strlit("tree-left");
    reveal_strlit("tree-right");
    reveal_strlit("tree-bottom");
    reveal_strlit("toggle-theme");
    reveal_strlit("increase-font");
    reveal_strlit("decrease-font");
    reveal_strlit("toggle-decorations");
    reveal_strlit("copy-path");
    reveal_strlit("open-externally");
    reveal_strlit("quit");
    let x = a.spec_id();
    let y = b.spec_id();
    if x == y {
        // Length, first and last character already tell every id apart.
        assert(x.len() == y.len() && x[0] == y[0] && x[x.len() - 1] == y[y.len() - 1]);
    }
}


// -------------------------------------------------------------------- modes

/// What the palette is listing.
#[derive(Debug, Clone, Copy, PartialEq, Eq, Structural)]
pub enum Mode {
    Command,
    File,
    Content,
    Vault,
}

impl Mode {
    pub open spec fn spec_prompt(self) -> Seq<char> {
        match self {
            Mode::Command => ""@,
            Mode::File => "file "@,
            Mode::Content => "grep "@,
            Mode::Vault => "vault "@,
        }
    }

    /// Shown before the query.
    pub fn prompt(self) -> (r: &'static str)
        ensures
            r@ == self.spec_prompt(),
    {
        match self {
            Mode::Command => "",
            Mode::File => "file ",
            Mode::Content => "grep ",
            Mode::Vault => "vault ",
        }
    }

    pub open spec fn spec_hint(self) -> Seq<char> {
        match self {
            Mode::Command => "Type a command\u{2026}"@,
            Mode::File => "Find a file or folder\u{2026}"@,
            Mode::Content => "Search inside notes\u{2026}"@,
            Mode::Vault => "Filter folders, Enter to descend\u{2026}"@,
        }
    }

    /// Shown in the empty query field.
    pub fn hint(self) -> (r: &'static str)
        ensures
            r@ == self.spec_hint(),
    {
        match self {
            Mode::Command => "Type a command\u{2026}",
            Mode::File => "Find a file or folder\u{2026}",
            Mode::Content => "Search inside notes\u{2026}",
            Mode::Vault => "Filter folders, Enter to descend\u{2026}",
        }
    }
}

/// Rows shown under the search field in command mode.
pub const COMMAND_ROWS: usize = 5;
/// Search modes list more, because a five-row result list is not a search.
pub const SEARCH_ROWS: usize = 12;
/// How many file matches are kept.
pub const FILE_ROWS: usize = 48;

// --------------------------------------------------------------------- rows

/// One row of the result list.
pub enum Row {
    Command(Command),
    Path { path: String, display: String, is_dir: bool },
    Hit { path: String, display: String, line: u32, text: String },
    /// "Open this folder as the vault", always first in `Mode::Vault`.
    UseFolder(String),
    Folder { path: String, label: String },
    /// Not selectable; explains an empty list.
    Note(String),
}

/// A row as the contracts see it.
pub enum RowView {
    Command(Command),
    Path { path: Seq<char>, display: Seq<char>, is_dir: bool },
    Hit { path: Seq<char>, display: Seq<char>, line: u32, text: Seq<char> },
    UseFolder(Seq<char>),
    Folder { path: Seq<char>, label: Seq<char> },
    Note(Seq<char>),
}

impl View for Row {
    type V = RowView;

    open spec fn view(&self) -> RowView {
        match self {
            Row::Command(c) => RowView::Command(*c),
            Row::Path { path, display, is_dir } => RowView::Path {
                path: path@,
                display: display@,
                is_dir: *is_dir,
            },
            Row::Hit { path, display, line, text } => RowView::Hit {
                path: path@,
                display: display@,
                line: *line,
                text: text@,
            },
            Row::UseFolder(p) => RowView::UseFolder(p@),
            Row::Folder { path, label } => RowView::Folder { path: path@, label: label@ },
            Row::Note(t) => RowView::Note(t@),
        }
    }
}

pub open spec fn rows_view(rows: Seq<Row>) -> Seq<RowView> {
    rows.map_values(|r: Row| r@)
}

/// What the app should do about a chosen row.
pub enum Outcome {
    Run(Command),
    Open(String),
    OpenVault(String),
}

/// What choosing `row` leads to: an outcome for the app, or, for a folder,
/// browsing into it.
pub enum Choice {
    Run(Command),
    Open(Seq<char>),
    OpenVault(Seq<char>),
    Browse(Seq<char>),
    Nothing,
}

pub open spec fn choice_of(row: RowView) -> Choice {
    match row {
        RowView::Command(c) => Choice::Run(c),
        RowView::Path { path, .. } => Choice::Open(path),
        RowView::Hit { path, .. } => Choice::Open(path),
        RowView::UseFolder(path) => Choice::OpenVault(path),
        RowView::Folder { path, .. } => Choice::Browse(path),
        RowView::Note(_) => Choice::Nothing,
    }
}

// ------------------------------------------------------------------ palette

pub struct Palette {
    pub open: bool,
    pub mode: Mode,
    pub query: String,
    /// Folder shown in `Mode::Vault`.
    pub browse: String,
    selected: usize,
    rows: Vec<Row>,
    fuzzy: Fuzzy,
    /// Set when the palette opens, so the text field takes focus once.
    grab_focus: bool,
    /// True while a content search is still running.
    pub searching: bool,
    /// Bumped every time the palette opens. Callers that cache the row list
    /// key off this, because opening the palette clears the rows.
    pub epoch: u64,
}

/// The palette as the contracts see it.
pub struct PaletteView {
    pub open: bool,
    pub mode: Mode,
    pub query: Seq<char>,
    pub browse: Seq<char>,
    pub selected: usize,
    pub rows: Seq<RowView>,
    pub grab_focus: bool,
    pub searching: bool,
    pub epoch: u64,
}

/// `v` opened in `mode`, empty, with a new epoch.
pub open spec fn opened(v: PaletteView, mode: Mode) -> PaletteView {
    PaletteView {
        open: true,
        mode,
        query: Seq::empty(),
        selected: 0,
        rows: Seq::empty(),
        grab_focus: true,
        searching: false,
        epoch: if v.epoch == u64::MAX {
            0
        } else {
            (v.epoch + 1) as u64
        },
        ..v
    }
}

/// `v` closed: no query, no rows.
pub open spec fn closed(v: PaletteView) -> PaletteView {
    PaletteView { open: false, query: Seq::empty(), rows: Seq::empty(), searching: false, ..v }
}


impl View for Palette {
    type V = PaletteView;

    closed spec fn view(&self) -> PaletteView {
        PaletteView {
            open: self.open,
            mode: self.mode,
            query: self.query@,
            browse: self.browse@,
            selected: self.selected,
            rows: rows_view(self.rows@),
            grab_focus: self.grab_focus,
            searching: self.searching,
            epoch: self.epoch,
        }
    }
}

/// How many rows a mode shows at most.
pub open spec fn row_cap(mode: Mode) -> nat {
    if mode == Mode::Command {
        COMMAND_ROWS as nat
    } else {
        SEARCH_ROWS as nat
    }
}

/// How many rows are shown.
pub open spec fn visible(v: PaletteView) -> nat {
    if v.rows.len() < row_cap(v.mode) {
        v.rows.len()
    } else {
        row_cap(v.mode)
    }
}

/// Moving the selection keeps it on a row that is shown, and moving up and
/// then down comes back to the same row.
pub proof fn law_selection_round_trip(selected: usize, shown: nat)
    requires
        selected < shown <= usize::MAX,
    ensures
        moved(selected, shown, true, false) < shown,
        moved(selected, shown, false, true) < shown,
        moved(moved(selected, shown, true, false), shown, false, true) == selected,
{
    let n = shown as int;
    crate::layout::lemma_mod_wrap(selected + n - 1, n);
    crate::layout::lemma_mod_wrap(selected + 1, n);
    let up = moved(selected, shown, true, false);
    crate::layout::lemma_mod_wrap(up + 1, n);
}

/// The selection held within the rows shown.
pub open spec fn clamped(v: PaletteView) -> usize {
    if v.selected >= visible(v) {
        if visible(v) > 0 {
            (visible(v) - 1) as usize
        } else {
            0
        }
    } else {
        v.selected
    }
}

/// `v` showing `rows`, its selection held within them.
pub open spec fn with_rows(v: PaletteView, rows: Seq<RowView>) -> PaletteView {
    let w = PaletteView { rows, ..v };
    PaletteView { selected: clamped(w), ..w }
}

/// The selection after the up and down keys: each moves one row, wrapping.
pub open spec fn moved(selected: usize, shown: nat, up: bool, down: bool) -> usize {
    if shown == 0 {
        selected
    } else {
        let a: int = if up {
            (selected + shown - 1) % (shown as int)
        } else {
            selected as int
        };
        let b: int = if down {
            (a + 1) % (shown as int)
        } else {
            a
        };
        b as usize
    }
}

impl Palette {
    pub fn new() -> (r: Palette)
        ensures
            r@ == (PaletteView {
                open: false,
                mode: Mode::Command,
                query: Seq::empty(),
                browse: Seq::empty(),
                selected: 0,
                rows: Seq::empty(),
                grab_focus: false,
                searching: false,
                epoch: 0,
            }),
    {
        let r = Palette {
            open: false,
            mode: Mode::Command,
            query: String::new(),
            browse: String::new(),
            selected: 0,
            rows: Vec::new(),
            fuzzy: Fuzzy::new(),
            grab_focus: false,
            searching: false,
            epoch: 0,
        };
        assert(rows_view(r.rows@) =~= Seq::<RowView>::empty());
        r
    }

    /// Opens the palette in `mode`, empty.
    pub fn show(&mut self, mode: Mode)
        ensures
            final(self)@ == opened(old(self)@, mode),
    {
        self.epoch = if self.epoch == u64::MAX {
            0
        } else {
            self.epoch + 1
        };
        self.open = true;
        self.mode = mode;
        self.query = String::new();
        self.selected = 0;
        self.rows = Vec::new();
        self.grab_focus = true;
        self.searching = false;
        assert(rows_view(self.rows@) =~= Seq::<RowView>::empty());
    }

    pub fn close(&mut self)
        ensures
            final(self)@ == closed(old(self)@),
    {
        self.open = false;
        self.query = String::new();
        self.rows = Vec::new();
        self.searching = false;
        assert(rows_view(self.rows@) =~= Seq::<RowView>::empty());
    }

    /// Opens the palette in `mode`, or closes it when it is already open in
    /// that mode: the palette's shortcut both opens and dismisses it.
    pub fn toggle(&mut self, mode: Mode)
        ensures
            final(self)@ == if old(self)@.open && old(self)@.mode == mode {
                closed(old(self)@)
            } else {
                opened(old(self)@, mode)
            },
    {
        if self.open && self.mode == mode {
            self.close();
        } else {
            self.show(mode);
        }
    }

    /// The rows, all of them, including those not shown.
    pub fn rows(&self) -> (r: &Vec<Row>)
        ensures
            rows_view(r@) == self@.rows,
    {
        &self.rows
    }

    /// The selected row.
    pub fn selected(&self) -> (r: usize)
        ensures
            r == self@.selected,
    {
        self.selected
    }

    /// How many rows are shown.
    pub fn visible_rows(&self) -> (r: usize)
        ensures
            r == visible(self@),
    {
        let cap = if self.mode == Mode::Command {
            COMMAND_ROWS
        } else {
            SEARCH_ROWS
        };
        if self.rows.len() < cap {
            self.rows.len()
        } else {
            cap
        }
    }

    fn clamp(&mut self)
        ensures
            final(self)@ == (PaletteView { selected: clamped(old(self)@), ..old(self)@ }),
    {
        let limit = self.visible_rows();
        if self.selected >= limit {
            self.selected = if limit > 0 {
                limit - 1
            } else {
                0
            };
        }
    }

    /// Replaces the query. The rows stay until they are ranked again.
    pub fn set_query(&mut self, query: String)
        ensures
            final(self)@ == (PaletteView { query: query@, ..old(self)@ }),
    {
        self.query = query;
    }

    /// The query, for a text field to edit in place. Everything else stays;
    /// the rows are ranked again by the caller.
    pub fn query_mut(&mut self) -> (r: &mut String)
        ensures
            r@ == old(self)@.query,
            final(self)@ == (PaletteView { query: final(r)@, ..old(self)@ }),
    {
        &mut self.query
    }

    /// Sets the folder the vault picker shows. Its listing is handed over by
    /// the caller, through [`Self::rank_folders`].
    pub fn set_browse(&mut self, browse: String)
        ensures
            final(self)@ == (PaletteView { browse: browse@, ..old(self)@ }),
    {
        self.browse = browse;
    }

    /// The query was edited: the selection goes back to the top.
    pub fn query_changed(&mut self)
        ensures
            final(self)@ == (PaletteView { selected: 0, ..old(self)@ }),
    {
        self.selected = 0;
    }

    /// Whether the text field should take focus now; asks only once per
    /// opening.
    pub fn take_focus_request(&mut self) -> (r: bool)
        ensures
            r == old(self)@.grab_focus,
            final(self)@ == (PaletteView { grab_focus: false, ..old(self)@ }),
    {
        let r = self.grab_focus;
        self.grab_focus = false;
        r
    }

    /// Moves the selection for the up and down keys, wrapping around the rows
    /// shown.
    pub fn move_selection(&mut self, up: bool, down: bool)
        ensures
            final(self)@ == (PaletteView {
                selected: moved(old(self)@.selected, visible(old(self)@), up, down),
                ..old(self)@
            }),
    {
        let shown = self.visible_rows();
        if shown == 0 || (!up && !down) {
            return;
        }
        let r = self.selected % shown;
        // The selection after the up key, reduced to the rows shown.
        let a = if up {
            if r == 0 {
                shown - 1
            } else {
                r - 1
            }
        } else {
            r
        };
        proof {
            let sel = old(self)@.selected as int;
            let n = shown as int;
            vstd::arithmetic::div_mod::lemma_mod_pos_bound(sel, n);
            if up {
                vstd::arithmetic::div_mod::lemma_add_mod_noop(sel, n - 1, n);
                vstd::arithmetic::div_mod::lemma_small_mod((n - 1) as nat, n as nat);
                crate::layout::lemma_mod_wrap(r + n - 1, n);
                let up_a = (sel + n - 1) % n;
                assert(a == up_a);
                vstd::arithmetic::div_mod::lemma_small_mod(a as nat, n as nat);
                assert(a == up_a % n);
            }
            if down {
                let spec_a: int = if up {
                    (sel + n - 1) % n
                } else {
                    sel
                };
                vstd::arithmetic::div_mod::lemma_add_mod_noop(spec_a, 1, n);
                vstd::arithmetic::div_mod::lemma_add_mod_noop(a as int, 1, n);
                vstd::arithmetic::div_mod::lemma_small_mod(a as nat, n as nat);
                assert(a == spec_a % n);
                crate::layout::lemma_mod_wrap(a + 1, n);
            }
        }
        let s = if down {
            if a + 1 == shown {
                0
            } else {
                a + 1
            }
        } else {
            a
        };
        self.selected = s;
    }
}


// ------------------------------------------------------------ row contents

/// How a row is drawn: its icon, its text, the faint text on its right, and
/// whether it can be chosen.
pub struct RowLabel {
    pub icon: &'static str,
    pub primary: String,
    pub secondary: String,
    pub selectable: bool,
}

pub open spec fn spec_icon(row: RowView) -> Seq<char> {
    match row {
        RowView::Command(_) => "\u{203a}"@,
        RowView::Path { is_dir, .. } => if is_dir {
            "\u{25b8}"@
        } else {
            "\u{2022}"@
        },
        RowView::Hit { .. } => "\u{2022}"@,
        RowView::UseFolder(_) => "\u{2713}"@,
        RowView::Folder { .. } => "\u{25b8}"@,
        RowView::Note(_) => " "@,
    }
}

pub open spec fn spec_primary(row: RowView) -> Seq<char> {
    match row {
        RowView::Command(c) => c.spec_title(),
        RowView::Path { display, .. } => display,
        RowView::Hit { text, .. } => text,
        RowView::UseFolder(path) => "Open \u{201c}"@ + name_or_path(path) + "\u{201d} as vault"@,
        RowView::Folder { label, .. } => label,
        RowView::Note(text) => text,
    }
}

pub open spec fn spec_secondary(row: RowView) -> Seq<char> {
    match row {
        RowView::Command(c) => c.spec_hint(),
        RowView::Hit { display, line, .. } => display + ":"@ + decimal(line as u64),
        _ => Seq::empty(),
    }
}

pub open spec fn selectable(row: RowView) -> bool {
    !(row is Note)
}

/// `r` is what choosing a row leads to.
pub open spec fn outcome_choice(r: Option<Outcome>) -> Choice {
    match r {
        Some(Outcome::Run(c)) => Choice::Run(c),
        Some(Outcome::Open(p)) => Choice::Open(p@),
        Some(Outcome::OpenVault(p)) => Choice::OpenVault(p@),
        None => Choice::Nothing,
    }
}

/// The rows for a list of content hits.
pub open spec fn hit_rows(hits: Seq<Hit>) -> Seq<RowView> {
    hits.map_values(
        |h: Hit| RowView::Hit { path: h.path@, display: h.display@, line: h.line, text: h.text@ },
    )
}

/// What an empty hit list says.
pub open spec fn hits_note(query: Seq<char>, searching: bool) -> Seq<char> {
    if trim(query).len() == 0 {
        "type to search note contents"@
    } else if searching {
        "searching\u{2026}"@
    } else {
        "no match"@
    }
}

impl Palette {
    /// How row `index` is drawn, if there is such a row.
    pub fn row_label(&self, index: usize) -> (r: Option<RowLabel>)
        ensures
            match r {
                Some(l) => {
                    &&& index < self@.rows.len()
                    &&& l.icon@ == spec_icon(self@.rows[index as int])
                    &&& l.primary@ == spec_primary(self@.rows[index as int])
                    &&& l.secondary@ == spec_secondary(self@.rows[index as int])
                    &&& l.selectable == selectable(self@.rows[index as int])
                },
                None => index >= self@.rows.len(),
            },
    {
        if index >= self.rows.len() {
            return None;
        }
        let row = &self.rows[index];
        let label = match row {
            Row::Command(c) => RowLabel {
                icon: "\u{203a}",
                primary: c.title().to_owned(),
                secondary: c.hint().to_owned(),
                selectable: true,
            },
            Row::Path { display, is_dir, .. } => RowLabel {
                icon: if *is_dir {
                    "\u{25b8}"
                } else {
                    "\u{2022}"
                },
                primary: display.clone(),
                secondary: String::new(),
                selectable: true,
            },
            Row::Hit { display, line, text, .. } => {
                let mut secondary = display.clone();
                push_char(&mut secondary, ':');
                push_decimal(&mut secondary, *line as u64);
                assert(display@.push(':') + decimal(*line as u64) =~= display@ + ":"@ + decimal(*line as u64)) by {
                    reveal_strlit(":");
                }
                RowLabel { icon: "\u{2022}", primary: text.clone(), secondary, selectable: true }
            },
            Row::UseFolder(path) => {
                let mut primary = "Open \u{201c}".to_owned();
                let name = name_of(path.as_str());
                append(&mut primary, name.as_str());
                append(&mut primary, "\u{201d} as vault");
                RowLabel { icon: "\u{2713}", primary, secondary: String::new(), selectable: true }
            },
            Row::Folder { label, .. } => RowLabel {
                icon: "\u{25b8}",
                primary: label.clone(),
                secondary: String::new(),
                selectable: true,
            },
            Row::Note(text) => RowLabel {
                icon: " ",
                primary: text.clone(),
                secondary: String::new(),
                selectable: false,
            },
        };
        Some(label)
    }

    /// Shows content-search results as they stream in.
    pub fn set_hits(&mut self, hits: &[Hit], searching: bool)
        ensures
            final(self)@ == with_rows(
                PaletteView { searching, ..old(self)@ },
                if hits@.len() == 0 {
                    seq![RowView::Note(hits_note(old(self)@.query, searching))]
                } else {
                    hit_rows(hits@)
                },
            ),
    {
        self.searching = searching;
        let mut rows: Vec<Row> = Vec::new();
        let mut i: usize = 0;
        while i < hits.len()
            invariant
                i <= hits@.len(),
                rows_view(rows@) == hit_rows(hits@.take(i as int)),
            decreases hits@.len() - i,
        {
            let h = &hits[i];
            let ghost before = rows@;
            rows.push(
                Row::Hit {
                    path: h.path.clone(),
                    display: h.display.clone(),
                    line: h.line,
                    text: h.text.clone(),
                },
            );
            assert(hits@.take(i + 1) =~= hits@.take(i as int).push(hits@[i as int]));
            assert(rows_view(rows@) =~= rows_view(before).push(rows@.last()@));
            assert(rows_view(rows@) =~= hit_rows(hits@.take(i + 1)));
            i += 1;
        }
        assert(hits@.take(hits@.len() as int) =~= hits@);
        if rows.len() == 0 {
            let query = trimmed(self.query.as_str());
            let note = if query.as_str().is_empty() {
                "type to search note contents".to_owned()
            } else if searching {
                "searching\u{2026}".to_owned()
            } else {
                "no match".to_owned()
            };
            rows.push(Row::Note(note));
            assert(rows_view(rows@) =~= seq![RowView::Note(hits_note(old(self)@.query, searching))]);
        }
        self.rows = rows;
        self.clamp();
    }

    /// Chooses row `index`. A folder is browsed into: the palette then shows
    /// it, once its listing is handed to [`Self::rank_folders`], and nothing
    /// is returned.
    pub fn activate(&mut self, index: usize) -> (r: Option<Outcome>)
        ensures
            ({
                let c = if index < old(self)@.rows.len() {
                    choice_of(old(self)@.rows[index as int])
                } else {
                    Choice::Nothing
                };
                match c {
                    Choice::Browse(path) => {
                        &&& r is None
                        &&& final(self)@ == (PaletteView {
                            browse: path,
                            query: Seq::empty(),
                            selected: 0,
                            ..old(self)@
                        })
                    },
                    _ => outcome_choice(r) == c && final(self)@ == old(self)@,
                }
            }),
    {
        if index >= self.rows.len() {
            return None;
        }
        let (r, browse) = match &self.rows[index] {
            Row::Command(c) => (Some(Outcome::Run(*c)), None),
            Row::Path { path, .. } => (Some(Outcome::Open(path.clone())), None),
            Row::Hit { path, .. } => (Some(Outcome::Open(path.clone())), None),
            Row::UseFolder(path) => (Some(Outcome::OpenVault(path.clone())), None),
            Row::Folder { path, .. } => (None, Some(path.clone())),
            Row::Note(_) => (None, None),
        };
        match browse {
            Some(path) => {
                // Descending only changes what the palette shows.
                self.browse = path;
                self.query = String::new();
                self.selected = 0;
            },
            None => {},
        }
        r
    }
}


// ------------------------------------------------------------------ ranking

/// Whether `a` sorts before `b`, character by character, as `str`'s `Ord`
/// compares them (UTF-8 order is code point order).
pub open spec fn str_lt(a: Seq<char>, b: Seq<char>) -> bool
    decreases a.len(),
{
    if a.len() == 0 {
        b.len() > 0
    } else if b.len() == 0 {
        false
    } else if a[0] < b[0] {
        true
    } else if a[0] > b[0] {
        false
    } else {
        str_lt(a.drop_first(), b.drop_first())
    }
}

/// Whether candidate `a` (a key and where it came from) ranks strictly
/// before `b`: a higher key first, and, `by_name`, a smaller name among
/// equal keys.
pub open spec fn ahead(names: Seq<Seq<char>>, by_name: bool, a: (u64, usize), b: (u64, usize)) -> bool {
    a.0 > b.0 || (by_name && a.0 == b.0 && str_lt(names[a.1 as int], names[b.1 as int]))
}

/// `s` with `x` inserted after everything that does not rank below it.
pub open spec fn insert_ranked(names: Seq<Seq<char>>, by_name: bool, s: Seq<(u64, usize)>, x: (u64, usize)) -> Seq<(u64, usize)>
    decreases s.len(),
{
    if s.len() == 0 {
        seq![x]
    } else if ahead(names, by_name, x, s.last()) {
        insert_ranked(names, by_name, s.drop_last(), x).push(s.last())
    } else {
        s.push(x)
    }
}

/// `s` in rank order; candidates that tie keep their order, as a stable sort
/// leaves them.
pub open spec fn ranked(names: Seq<Seq<char>>, by_name: bool, s: Seq<(u64, usize)>) -> Seq<(u64, usize)>
    decreases s.len(),
{
    if s.len() == 0 {
        s
    } else {
        insert_ranked(names, by_name, ranked(names, by_name, s.drop_last()), s.last())
    }
}

pub open spec fn names_ok(names: Seq<Seq<char>>, by_name: bool, s: Seq<(u64, usize)>) -> bool {
    by_name ==> forall|k: int| 0 <= k < s.len() ==> #[trigger] s[k].1 < names.len()
}

fn lt_chars(a: &Vec<char>, b: &Vec<char>) -> (r: bool)
    ensures
        r == str_lt(a@, b@),
{
    let mut i: usize = 0;
    assert(a@.skip(0) =~= a@ && b@.skip(0) =~= b@);
    loop
        invariant
            i <= a.len(),
            i <= b.len(),
            str_lt(a@, b@) == str_lt(a@.skip(i as int), b@.skip(i as int)),
        decreases a.len() - i,
    {
        if i == a.len() {
            return i < b.len();
        }
        if i == b.len() {
            return false;
        }
        let x = a[i];
        let y = b[i];
        assert(a@.skip(i as int)[0] == a@[i as int] && b@.skip(i as int)[0] == b@[i as int]);
        if x < y {
            return true;
        }
        if x > y {
            return false;
        }
        assert(a@.skip(i as int).drop_first() =~= a@.skip(i + 1));
        assert(b@.skip(i as int).drop_first() =~= b@.skip(i + 1));
        i += 1;
    }
}

fn ahead_exec(names: &Vec<Vec<char>>, by_name: bool, a: (u64, usize), b: (u64, usize)) -> (r: bool)
    requires
        by_name ==> a.1 < names.len() && b.1 < names.len(),
    ensures
        r == ahead(chars_view(names@), by_name, a, b),
{
    if a.0 > b.0 {
        return true;
    }
    if by_name && a.0 == b.0 {
        return lt_chars(&names[a.1], &names[b.1]);
    }
    false
}

fn insert_ranked_exec(names: &Vec<Vec<char>>, by_name: bool, v: &mut Vec<(u64, usize)>, x: (u64, usize))
    requires
        names_ok(chars_view(names@), by_name, old(v)@.push(x)),
    ensures
        final(v)@ == insert_ranked(chars_view(names@), by_name, old(v)@, x),
{
    let ghost s = v@;
    let ghost nv = chars_view(names@);
    let mut j = v.len();
    assert(s.take(j as int) =~= s && s.skip(j as int) =~= Seq::<(u64, usize)>::empty());
    assert(s.push(x)[s.len() as int] == x);
    assert(by_name ==> forall|k: int| 0 <= k < s.len() ==> #[trigger] s[k].1 < names.len()) by {
        assert forall|k: int| by_name && 0 <= k < s.len() implies #[trigger] s[k].1 < names.len() by {
            assert(s.push(x)[k] == s[k]);
        }
    }
    while j > 0 && ahead_exec(names, by_name, x, v[j - 1])
        invariant
            j <= v.len(),
            v@ == s,
            names_ok(nv, by_name, s.push(x)),
            by_name ==> x.1 < names.len(),
            by_name ==> forall|k: int| 0 <= k < s.len() ==> #[trigger] s[k].1 < names.len(),
            nv == chars_view(names@),
            insert_ranked(nv, by_name, s, x) == insert_ranked(nv, by_name, s.take(j as int), x) + s.skip(j as int),
        decreases j,
    {
        proof {
            assert(s.push(x)[j - 1] == s[j - 1]);
            assert(s.push(x)[s.len() as int] == x);
        }
        proof {
            let t = s.take(j as int);
            assert(t.drop_last() =~= s.take(j - 1));
            assert(t.last() == s[j - 1]);
            assert(insert_ranked(nv, by_name, t, x) == insert_ranked(nv, by_name, s.take(j - 1), x).push(s[j - 1]));
            assert(insert_ranked(nv, by_name, s.take(j - 1), x).push(s[j - 1]) + s.skip(j as int) =~= insert_ranked(nv, by_name, s.take(j - 1), x) + s.skip(j - 1));
        }
        j -= 1;
    }
    proof {
        let t = s.take(j as int);
        if j > 0 {
            assert(s.push(x)[j - 1] == s[j - 1]);
            assert(t.last() == s[j - 1]);
        }
        assert(insert_ranked(nv, by_name, t, x) == t.push(x));
    }
    v.insert(j, x);
    assert(v@ =~= s.take(j as int).push(x) + s.skip(j as int));
}

/// `items` in rank order.
pub(crate) fn rank(names: &Vec<Vec<char>>, by_name: bool, items: &Vec<(u64, usize)>) -> (r: Vec<(u64, usize)>)
    requires
        names_ok(chars_view(names@), by_name, items@),
    ensures
        r@ == ranked(chars_view(names@), by_name, items@),
{
    let ghost nv = chars_view(names@);
    let mut out: Vec<(u64, usize)> = Vec::new();
    let mut k: usize = 0;
    assert(items@.take(0) =~= Seq::<(u64, usize)>::empty());
    while k < items.len()
        invariant
            k <= items.len(),
            nv == chars_view(names@),
            names_ok(nv, by_name, items@),
            out@ == ranked(nv, by_name, items@.take(k as int)),
            out@.to_multiset() == items@.take(k as int).to_multiset(),
        decreases items.len() - k,
    {
        proof {
            broadcast use vstd::seq_lib::group_to_multiset_ensures;
            assert(items@.take(k + 1).drop_last() =~= items@.take(k as int));
            assert(items@.take(k + 1) =~= items@.take(k as int).push(items@[k as int]));
            assert forall|m: int| by_name && 0 <= m < out@.push(items@[k as int]).len() implies #[trigger] out@.push(items@[k as int])[m].1 < names@.len() by {
                if m < out@.len() {
                    assert(out@.to_multiset().count(out@[m]) > 0);
                    assert(items@.take(k as int).contains(out@[m]));
                    let a = choose|a: int| 0 <= a < k && items@.take(k as int)[a] == out@[m];
                    assert(items@[a] == out@[m]);
                }
            }
        }
        let ghost before = out@;
        insert_ranked_exec(names, by_name, &mut out, items[k]);
        proof {
            broadcast use vstd::seq_lib::group_to_multiset_ensures;
            lemma_insert_ranked_multiset(nv, by_name, before, items@[k as int]);
        }
        k += 1;
    }
    assert(items@.take(items.len() as int) =~= items@);
    out
}

pub proof fn lemma_insert_ranked_multiset(names: Seq<Seq<char>>, by_name: bool, s: Seq<(u64, usize)>, x: (u64, usize))
    ensures
        insert_ranked(names, by_name, s, x).to_multiset() == s.to_multiset().insert(x),
    decreases s.len(),
{
    broadcast use vstd::seq_lib::group_to_multiset_ensures;
    broadcast use vstd::multiset::group_multiset_axioms;
    if s.len() == 0 {
        assert(seq![x] =~= s.push(x));
    } else if ahead(names, by_name, x, s.last()) {
        lemma_insert_ranked_multiset(names, by_name, s.drop_last(), x);
        assert(s.drop_last().push(s.last()) =~= s);
        assert(insert_ranked(names, by_name, s, x).to_multiset() =~= s.to_multiset().insert(x));
    }
}


// ---------------------------------------------------------------- commands

/// Titles are short enough for the matcher.
pub proof fn lemma_title_len(c: Command)
    ensures
        c.spec_title().len() <= 64,
{
    reveal_strlit("Open Vault Folder");
    reveal_strlit("Find File or Folder by Name");
    reveal_strlit("Search File Contents");
    reveal_strlit("Reload Current File");
    reveal_strlit("Reveal Current File in Tree");
    reveal_strlit("Close Tab");
    reveal_strlit("Close Other Tabs");
    reveal_strlit("Close All Tabs");
    reveal_strlit("Next Tab");
    reveal_strlit("Previous Tab");
    reveal_strlit("Toggle File Tree");
    reveal_strlit("File Tree: Dock Left");
    reveal_strlit("File Tree: Dock Right");
    reveal_strlit("File Tree: Dock Bottom");
    reveal_strlit("Toggle Light / Dark Theme");
    reveal_strlit("Increase Font Size");
    reveal_strlit("Decrease Font Size");
    reveal_strlit("Toggle Window Decorations");
    reveal_strlit("Copy Current File Path");
    reveal_strlit("Open Current File in Default App");
    reveal_strlit("Quit Faust");
}

/// Where `id` first appears in `recent`, or -1.
pub open spec fn recent_pos(recent: Seq<Seq<char>>, id: Seq<char>) -> int
    decreases recent.len(),
{
    if recent.len() == 0 {
        -1
    } else {
        let p = recent_pos(recent.drop_last(), id);
        if p >= 0 {
            p
        } else if recent.last() == id {
            recent.len() - 1
        } else {
            -1
        }
    }
}

/// A recently used command wins ties with an unused one: the more recent,
/// the larger the bonus.
pub open spec fn bonus(recent: Seq<Seq<char>>, c: Command) -> u64 {
    let p = recent_pos(recent, c.spec_id());
    if p < 0 {
        0
    } else {
        ((recent.len() - p) as u32) as u64
    }
}

/// The matching commands with their keys: score plus bonus.
pub open spec fn command_candidates(scores: Seq<Option<u32>>, recent: Seq<Seq<char>>) -> Seq<(u64, usize)>
    decreases scores.len(),
{
    if scores.len() == 0 {
        Seq::empty()
    } else {
        let k = scores.len() - 1;
        let before = command_candidates(scores.drop_last(), recent);
        match scores.last() {
            Some(s) => before.push(((s as u64 + bonus(recent, all_commands()[k])) as u64, k as usize)),
            None => before,
        }
    }
}

/// The commands that matched, best first, given each command's score.
pub open spec fn ranked_commands(scores: Seq<Option<u32>>, recent: Seq<Seq<char>>) -> Seq<Command> {
    ranked(Seq::empty(), false, command_candidates(scores, recent)).map_values(
        |p: (u64, usize)| all_commands()[p.1 as int],
    )
}

/// The commands named in `recent`, in its order.
pub open spec fn recent_commands(recent: Seq<Seq<char>>) -> Seq<Command>
    decreases recent.len(),
{
    if recent.len() == 0 {
        Seq::empty()
    } else {
        recent_commands(recent.drop_last()) + match find_id(all_commands(), recent.last()) {
            Some(c) => seq![c],
            None => Seq::empty(),
        }
    }
}

/// `acc` followed by those of `cs` it does not hold yet, in order.
pub open spec fn fill_missing(acc: Seq<Command>, cs: Seq<Command>) -> Seq<Command>
    decreases cs.len(),
{
    if cs.len() == 0 {
        acc
    } else {
        let a = fill_missing(acc, cs.drop_last());
        if a.contains(cs.last()) {
            a
        } else {
            a.push(cs.last())
        }
    }
}

/// An idle palette lists recently used commands first, then every other.
pub open spec fn idle_commands(recent: Seq<Seq<char>>) -> Seq<Command> {
    fill_missing(recent_commands(recent), all_commands())
}

pub open spec fn command_rows(cs: Seq<Command>) -> Seq<RowView> {
    cs.map_values(|c: Command| RowView::Command(c))
}

fn contains_command(v: &Vec<Command>, c: Command) -> (r: bool)
    ensures
        r == v@.contains(c),
{
    let mut i: usize = 0;
    while i < v.len()
        invariant
            i <= v.len(),
            forall|j: int| 0 <= j < i ==> v@[j] != c,
        decreases v.len() - i,
    {
        if v[i] == c {
            return true;
        }
        i += 1;
    }
    false
}

/// The commands an idle palette lists.
pub fn idle_order(recent: &[String]) -> (r: Vec<Command>)
    ensures
        r@ == idle_commands(strings_view(recent@)),
{
    let ghost rv = strings_view(recent@);
    let mut ordered: Vec<Command> = Vec::new();
    let mut i: usize = 0;
    assert(rv.take(0) =~= Seq::<Seq<char>>::empty());
    while i < recent.len()
        invariant
            i <= recent@.len(),
            rv == strings_view(recent@),
            ordered@ == recent_commands(rv.take(i as int)),
        decreases recent@.len() - i,
    {
        assert(rv.take(i + 1).drop_last() =~= rv.take(i as int));
        assert(rv.take(i + 1).last() == recent@[i as int]@);
        match Command::from_id(recent[i].as_str()) {
            Some(c) => {
                ordered.push(c);
                assert(ordered@ =~= recent_commands(rv.take(i as int)) + seq![c]);
            },
            None => {
                assert(ordered@ =~= recent_commands(rv.take(i as int)) + Seq::<Command>::empty());
            },
        }
        i += 1;
    }
    assert(rv.take(recent@.len() as int) =~= rv);
    let ghost start = ordered@;
    let all = Command::all();
    let mut k: usize = 0;
    assert(all@.take(0) =~= Seq::<Command>::empty());
    while k < all.len()
        invariant
            k <= all@.len(),
            all@ == all_commands(),
            start == recent_commands(rv),
            ordered@ == fill_missing(start, all@.take(k as int)),
        decreases all@.len() - k,
    {
        assert(all@.take(k + 1).drop_last() =~= all@.take(k as int));
        assert(all@.take(k + 1).last() == all@[k as int]);
        if !contains_command(&ordered, all[k]) {
            ordered.push(all[k]);
        }
        k += 1;
    }
    assert(all@.take(all@.len() as int) =~= all@);
    ordered
}

/// The commands that matched, best first, given each command's score in
/// [`Command::all`] order; ties keep that order.
pub fn rank_scored_commands(scores: &Vec<Option<u32>>, recent: &[String]) -> (r: Vec<Command>)
    requires
        scores@.len() == COMMAND_COUNT,
    ensures
        r@ == ranked_commands(scores@, strings_view(recent@)),
{
    let ghost rv = strings_view(recent@);
    let all = Command::all();
    let mut items: Vec<(u64, usize)> = Vec::new();
    let mut k: usize = 0;
    assert(scores@.take(0) =~= Seq::<Option<u32>>::empty());
    while k < scores.len()
        invariant
            k <= scores@.len() == COMMAND_COUNT,
            all@ == all_commands(),
            rv == strings_view(recent@),
            items@ == command_candidates(scores@.take(k as int), rv),
            forall|m: int| 0 <= m < items@.len() ==> #[trigger] items@[m].1 < k,
        decreases scores@.len() - k,
    {
        assert(scores@.take(k + 1).drop_last() =~= scores@.take(k as int));
        assert(scores@.take(k + 1).last() == scores@[k as int]);
        match scores[k] {
            Some(s) => {
                // The bonus: how recently the command was used.
                let id = all[k].id();
                let mut rank: usize = 0;
                let ghost cid = all@[k as int].spec_id();
                assert(rv.take(0) =~= Seq::<Seq<char>>::empty());
                while rank < recent.len() && !str_eq(recent[rank].as_str(), id)
                    invariant
                        rank <= recent@.len(),
                        rv == strings_view(recent@),
                        id@ == cid,
                        recent_pos(rv.take(rank as int), cid) == -1,
                    decreases recent@.len() - rank,
                {
                    assert(rv.take(rank + 1).drop_last() =~= rv.take(rank as int));
                    assert(rv.take(rank + 1).last() == recent@[rank as int]@);
                    rank += 1;
                }
                proof {
                    lemma_recent_pos_prefix(rv, cid, rank as int);
                }
                let b: u32 = if rank < recent.len() {
                    #[verifier::truncate]
                    ((recent.len() - rank) as u32)
                } else {
                    0
                };
                assert(b as u64 == bonus(rv, all_commands()[k as int]));
                items.push((s as u64 + b as u64, k));
            },
            None => {},
        }
        k += 1;
    }
    assert(scores@.take(scores@.len() as int) =~= scores@);
    let names: Vec<Vec<char>> = Vec::new();
    let order = rank(&names, false, &items);
    proof {
        lemma_ranked_multiset(chars_view(names@), false, items@);
    }
    let mut out: Vec<Command> = Vec::new();
    let mut m: usize = 0;
    while m < order.len()
        invariant
            m <= order@.len(),
            all@ == all_commands(),
            all@.len() == COMMAND_COUNT,
            order@ == ranked(chars_view(names@), false, items@),
            forall|a: int| 0 <= a < order@.len() ==> #[trigger] order@[a].1 < COMMAND_COUNT,
            out@ == order@.take(m as int).map_values(|p: (u64, usize)| all_commands()[p.1 as int]),
        decreases order@.len() - m,
    {
        out.push(all[order[m].1]);
        assert(order@.take(m + 1) =~= order@.take(m as int).push(order@[m as int]));
        assert(out@ =~= order@.take(m + 1).map_values(|p: (u64, usize)| all_commands()[p.1 as int]));
        m += 1;
    }
    assert(order@.take(order@.len() as int) =~= order@);
    assert(chars_view(names@) =~= Seq::<Seq<char>>::empty());
    out
}

/// The first position of `id` is past a prefix without it.
pub proof fn lemma_recent_pos_prefix(recent: Seq<Seq<char>>, id: Seq<char>, n: int)
    requires
        0 <= n <= recent.len(),
        recent_pos(recent.take(n), id) == -1,
        n < recent.len() ==> recent[n] == id,
    ensures
        recent_pos(recent, id) == if n < recent.len() {
            n
        } else {
            -1
        },
    decreases recent.len() - n,
{
    if n == recent.len() {
        assert(recent.take(n) =~= recent);
    } else {
        lemma_recent_pos_first(recent, id, n);
    }
}

pub proof fn lemma_recent_pos_first(recent: Seq<Seq<char>>, id: Seq<char>, n: int)
    requires
        0 <= n < recent.len(),
        recent_pos(recent.take(n), id) == -1,
        recent[n] == id,
    ensures
        recent_pos(recent, id) == n,
    decreases recent.len(),
{
    if recent.len() - 1 == n {
        assert(recent.drop_last() =~= recent.take(n));
    } else {
        assert(recent.drop_last().take(n) =~= recent.take(n));
        lemma_recent_pos_first(recent.drop_last(), id, n);
    }
}

/// Ranking keeps every candidate, each once.
pub proof fn lemma_ranked_multiset(names: Seq<Seq<char>>, by_name: bool, s: Seq<(u64, usize)>)
    ensures
        ranked(names, by_name, s).to_multiset() == s.to_multiset(),
        ranked(names, by_name, s).len() == s.len(),
        forall|a: int| 0 <= a < ranked(names, by_name, s).len() ==> s.contains(#[trigger] ranked(names, by_name, s)[a]),
    decreases s.len(),
{
    broadcast use vstd::seq_lib::group_to_multiset_ensures;
    if s.len() > 0 {
        lemma_ranked_multiset(names, by_name, s.drop_last());
        lemma_insert_ranked_multiset(names, by_name, ranked(names, by_name, s.drop_last()), s.last());
        assert(s.drop_last().push(s.last()) =~= s);
        let r = ranked(names, by_name, s);
        assert(r.to_multiset().len() == r.len());
        assert(s.to_multiset().len() == s.len());
        assert forall|a: int| 0 <= a < r.len() implies s.contains(#[trigger] r[a]) by {
            assert(r.to_multiset().count(r[a]) > 0);
        }
    }
}


// ------------------------------------------------------------ files, folders

/// The matcher's score of each command's title for `query`, in the order of
/// [`all_commands`].
pub open spec fn command_scores(query: Seq<char>) -> Seq<Option<u32>> {
    all_commands().map_values(|c: Command| fuzzy_score(query, c.spec_title()))
}

/// The matcher's score of each entry's vault path for `query`.
pub open spec fn entry_scores(query: Seq<char>, es: Seq<FileEntry>) -> Seq<Option<u32>> {
    es.map_values(|e: FileEntry| fuzzy_score(query, e.display@))
}

/// The matcher's score of each folder the picker offers for `query`; no
/// score for anything else.
pub open spec fn folder_entry_scores(query: Seq<char>, es: Seq<FileEntry>) -> Seq<Option<u32>> {
    es.map_values(
        |e: FileEntry|
            if offered(e, query) {
                fuzzy_score(query, e.display@)
            } else {
                None
            },
    )
}

/// The matching entries, keyed by score.
pub open spec fn file_candidates(scores: Seq<Option<u32>>) -> Seq<(u64, usize)>
    decreases scores.len(),
{
    if scores.len() == 0 {
        Seq::empty()
    } else {
        let before = file_candidates(scores.drop_last());
        match scores.last() {
            Some(s) => before.push((s as u64, (scores.len() - 1) as usize)),
            None => before,
        }
    }
}

pub open spec fn entry_names(es: Seq<FileEntry>) -> Seq<Seq<char>> {
    es.map_values(|e: FileEntry| e.display@)
}

pub open spec fn entry_paths(es: Seq<FileEntry>) -> Seq<Seq<char>> {
    es.map_values(|e: FileEntry| e.path@)
}

/// The positions of the best matching entries: best score first, then by
/// name; at most [`FILE_ROWS`].
pub open spec fn ranked_files(es: Seq<FileEntry>, scores: Seq<Option<u32>>) -> Seq<usize> {
    let r = ranked(entry_names(es), true, file_candidates(scores)).map_values(|p: (u64, usize)| p.1);
    if r.len() > FILE_ROWS {
        r.take(FILE_ROWS as int)
    } else {
        r
    }
}

pub open spec fn path_rows(es: Seq<FileEntry>, idx: Seq<usize>) -> Seq<RowView> {
    idx.map_values(
        |i: usize| RowView::Path { path: es[i as int].path@, display: es[i as int].display@, is_dir: es[i as int].is_dir },
    )
}

/// What an empty file list says.
pub open spec fn files_note(indexing: bool) -> Seq<char> {
    if indexing {
        "indexing\u{2026}"@
    } else {
        "no match"@
    }
}

/// `rows`, or a note explaining why there are none.
pub open spec fn or_note(rows: Seq<RowView>, note: Seq<char>) -> Seq<RowView> {
    if rows.len() == 0 {
        seq![RowView::Note(note)]
    } else {
        rows
    }
}

/// Whether a folder is left out of the picker: hidden folders are noise,
/// but stay reachable by typing the dot.
pub open spec fn hidden(name: Seq<char>, query: Seq<char>) -> bool {
    name.len() > 0 && name[0] == '.' && !(query.len() > 0 && query[0] == '.')
}

/// The folders of a listing that are offered, keyed by score.
pub open spec fn folder_candidates(es: Seq<FileEntry>, query: Seq<char>, scores: Seq<Option<u32>>) -> Seq<(u64, usize)>
    decreases scores.len(),
{
    if scores.len() == 0 {
        Seq::empty()
    } else {
        let k = scores.len() - 1;
        let before = folder_candidates(es, query, scores.drop_last());
        if es[k].is_dir && !hidden(es[k].display@, query) {
            match scores.last() {
                Some(s) => before.push((s as u64, k as usize)),
                None => before,
            }
        } else {
            before
        }
    }
}

/// The positions of the offered folders: best score first, then by path.
pub open spec fn ranked_folders(es: Seq<FileEntry>, query: Seq<char>, scores: Seq<Option<u32>>) -> Seq<usize> {
    ranked(entry_paths(es), true, folder_candidates(es, query, scores)).map_values(|p: (u64, usize)| p.1)
}

proof fn lemma_folder_candidate(es: Seq<FileEntry>, query: Seq<char>, scores: Seq<Option<u32>>, k: int)
    requires
        0 <= k < scores.len(),
        es[k].is_dir,
        !hidden(es[k].display@, query),
        scores[k] is Some,
    ensures
        folder_candidates(es, query, scores).contains((scores[k]->0 as u64, k as usize)),
    decreases scores.len(),
{
    let c = folder_candidates(es, query, scores);
    if k == scores.len() - 1 {
        assert(c.last() == (scores[k]->0 as u64, k as usize));
    } else {
        let d = scores.drop_last();
        assert(d[k] == scores[k]);
        lemma_folder_candidate(es, query, d, k);
        let before = folder_candidates(es, query, d);
        let j = choose|j: int| 0 <= j < before.len() && before[j] == (scores[k]->0 as u64, k as usize);
        if c != before {
            assert(c[j] == before[j]);
        }
    }
}

/// A query that starts with a dot reaches the folders whose names start
/// with one: every folder of the listing that the matcher scores is offered,
/// as a row that browses into it.
pub proof fn law_dot_query_reaches_dot_folders(
    browse: Seq<char>,
    es: Seq<FileEntry>,
    query: Seq<char>,
    scores: Seq<Option<u32>>,
    k: int,
)
    requires
        query.len() > 0,
        query[0] == '.',
        scores.len() == es.len(),
        es.len() <= usize::MAX,
        0 <= k < es.len(),
        es[k].is_dir,
        scores[k] is Some,
    ensures
        ranked_folders(es, query, scores).contains(k as usize),
        folder_rows(browse, es, ranked_folders(es, query, scores)).contains(
            RowView::Folder { path: es[k].path@, label: name_or_path(es[k].path@) },
        ),
{
    let x = (scores[k]->0 as u64, k as usize);
    let c = folder_candidates(es, query, scores);
    lemma_folder_candidate(es, query, scores, k);
    let names = entry_paths(es);
    let r = ranked(names, true, c);
    lemma_ranked_multiset(names, true, c);
    assert(c.to_multiset().count(x) > 0) by {
        broadcast use vstd::seq_lib::group_to_multiset_ensures;
    }
    assert(r.contains(x)) by {
        broadcast use vstd::seq_lib::group_to_multiset_ensures;
        assert(r.to_multiset().count(x) > 0);
    }
    let a = choose|a: int| 0 <= a < r.len() && r[a] == x;
    let idx = r.map_values(|p: (u64, usize)| p.1);
    assert(idx[a] == k as usize);
    let rows = folder_rows(browse, es, idx);
    let head = seq![RowView::UseFolder(browse)] + match path_parent(browse) {
        Some(p) => seq![RowView::Folder { path: p, label: ".."@ }],
        None => Seq::<RowView>::empty(),
    };
    let tail = idx.map_values(
        |i: usize| RowView::Folder { path: es[i as int].path@, label: name_or_path(es[i as int].path@) },
    );
    assert(rows == head + tail);
    let want = RowView::Folder { path: es[k].path@, label: name_or_path(es[k].path@) };
    assert(tail[a] == want);
    assert(rows[head.len() + a] == want);
    assert(ranked_folders(es, query, scores) == idx);
    assert(rows.contains(want));
}

/// Choosing a row of the file finder opens the full path of the entry that
/// row shows, not the text it is shown by.
pub proof fn law_choosing_a_file_opens_its_path(es: Seq<FileEntry>, idx: Seq<usize>, i: int)
    requires
        0 <= i < idx.len(),
        idx[i] < es.len(),
    ensures
        choice_of(path_rows(es, idx)[i]) == Choice::Open(es[idx[i] as int].path@),
{
}

/// The picker's rows: use this folder, go up, and the folders inside.
pub open spec fn folder_rows(browse: Seq<char>, es: Seq<FileEntry>, idx: Seq<usize>) -> Seq<RowView> {
    seq![RowView::UseFolder(browse)] + match path_parent(browse) {
        Some(p) => seq![RowView::Folder { path: p, label: ".."@ }],
        None => Seq::empty(),
    } + idx.map_values(
        |i: usize| RowView::Folder { path: es[i as int].path@, label: name_or_path(es[i as int].path@) },
    )
}

fn candidate_positions(order: &Vec<(u64, usize)>, limit: usize) -> (r: Vec<usize>)
    ensures
        r@ == ({
            let all = order@.map_values(|p: (u64, usize)| p.1);
            if all.len() > limit {
                all.take(limit as int)
            } else {
                all
            }
        }),
{
    let mut out: Vec<usize> = Vec::new();
    let mut m: usize = 0;
    while m < order.len() && m < limit
        invariant
            m <= order@.len(),
            m <= limit,
            out@ == order@.take(m as int).map_values(|p: (u64, usize)| p.1),
        decreases order@.len() - m,
    {
        out.push(order[m].1);
        assert(order@.take(m + 1) =~= order@.take(m as int).push(order@[m as int]));
        assert(out@ =~= order@.take(m + 1).map_values(|p: (u64, usize)| p.1));
        m += 1;
    }
    let ghost all = order@.map_values(|p: (u64, usize)| p.1);
    if m == order.len() {
        assert(order@.take(m as int) =~= order@);
    }
    assert(out@ =~= (if all.len() > limit {
        all.take(limit as int)
    } else {
        all
    }));
    out
}

/// The positions of the best matching entries, given each entry's score.
pub fn rank_scored_files(entries: &[FileEntry], scores: &Vec<Option<u32>>) -> (r: Vec<usize>)
    requires
        scores@.len() == entries@.len(),
    ensures
        r@ == ranked_files(entries@, scores@),
        forall|a: int| 0 <= a < r@.len() ==> #[trigger] r@[a] < entries@.len(),
{
    let mut names: Vec<Vec<char>> = Vec::new();
    let mut items: Vec<(u64, usize)> = Vec::new();
    let mut k: usize = 0;
    assert(scores@.take(0) =~= Seq::<Option<u32>>::empty());
    while k < entries.len()
        invariant
            k <= entries@.len() == scores@.len(),
            chars_view(names@) == entry_names(entries@.take(k as int)),
            items@ == file_candidates(scores@.take(k as int)),
            forall|m: int| 0 <= m < items@.len() ==> #[trigger] items@[m].1 < k,
        decreases entries@.len() - k,
    {
        let ghost before = names@;
        names.push(chars_of(entries[k].display.as_str()));
        assert(chars_view(names@) =~= chars_view(before).push(names@.last()@));
        assert(entries@.take(k + 1) =~= entries@.take(k as int).push(entries@[k as int]));
        assert(chars_view(names@) =~= entry_names(entries@.take(k + 1)));
        assert(scores@.take(k + 1).drop_last() =~= scores@.take(k as int));
        assert(scores@.take(k + 1).last() == scores@[k as int]);
        match scores[k] {
            Some(s) => {
                items.push((s as u64, k));
            },
            None => {},
        }
        k += 1;
    }
    assert(scores@.take(k as int) =~= scores@);
    assert(entries@.take(k as int) =~= entries@);
    let order = rank(&names, true, &items);
    proof {
        lemma_ranked_multiset(chars_view(names@), true, items@);
    }
    let r = candidate_positions(&order, FILE_ROWS);
    proof {
        assert forall|a: int| 0 <= a < r@.len() implies #[trigger] r@[a] < entries@.len() by {
            assert(items@.contains(order@[a]));
        }
    }
    r
}

/// The positions of the offered folders of a listing, given each entry's
/// score (only those of offered folders are read).
pub fn rank_scored_folders(listing: &[FileEntry], query: &str, scores: &Vec<Option<u32>>) -> (r: Vec<usize>)
    requires
        scores@.len() == listing@.len(),
    ensures
        r@ == ranked_folders(listing@, query@, scores@),
        forall|a: int| 0 <= a < r@.len() ==> #[trigger] r@[a] < listing@.len(),
{
    let q = chars_of(query);
    let dot_query = q.len() > 0 && q[0] == '.';
    let mut names: Vec<Vec<char>> = Vec::new();
    let mut items: Vec<(u64, usize)> = Vec::new();
    let mut k: usize = 0;
    assert(scores@.take(0) =~= Seq::<Option<u32>>::empty());
    while k < listing.len()
        invariant
            k <= listing@.len() == scores@.len(),
            q@ == query@,
            dot_query == (query@.len() > 0 && query@[0] == '.'),
            chars_view(names@) == entry_paths(listing@.take(k as int)),
            items@ == folder_candidates(listing@, query@, scores@.take(k as int)),
            forall|m: int| 0 <= m < items@.len() ==> #[trigger] items@[m].1 < k,
        decreases listing@.len() - k,
    {
        let e = &listing[k];
        let ghost before = names@;
        names.push(chars_of(e.path.as_str()));
        assert(chars_view(names@) =~= chars_view(before).push(names@.last()@));
        assert(listing@.take(k + 1) =~= listing@.take(k as int).push(listing@[k as int]));
        assert(chars_view(names@) =~= entry_paths(listing@.take(k + 1)));
        assert(scores@.take(k + 1).drop_last() =~= scores@.take(k as int));
        assert(scores@.take(k + 1).last() == scores@[k as int]);
        let name = chars_of(e.display.as_str());
        let hide = name.len() > 0 && name[0] == '.' && !dot_query;
        if e.is_dir && !hide {
            match scores[k] {
                Some(s) => {
                    items.push((s as u64, k));
                },
                None => {},
            }
        }
        k += 1;
    }
    assert(scores@.take(k as int) =~= scores@);
    assert(listing@.take(k as int) =~= listing@);
    let order = rank(&names, true, &items);
    proof {
        lemma_ranked_multiset(chars_view(names@), true, items@);
    }
    let r = candidate_positions(&order, order.len());
    proof {
        assert forall|a: int| 0 <= a < r@.len() implies #[trigger] r@[a] < listing@.len() by {
            assert(items@.contains(order@[a]));
        }
    }
    r
}

impl Palette {
    /// Ranks the built-in commands, most recently used first when idle.
    pub fn rank_commands(&mut self, recent: &[String])
        requires
            old(self)@.query.len() <= MAX_QUERY,
        ensures
            old(self)@.query.len() == 0 ==> final(self)@ == with_rows(
                old(self)@,
                command_rows(idle_commands(strings_view(recent@))),
            ),
            old(self)@.query.len() > 0 ==> final(self)@ == with_rows(
                old(self)@,
                command_rows(ranked_commands(command_scores(old(self)@.query), strings_view(recent@))),
            ),
    {
        let pattern = Fuzzy::pattern(self.query.as_str());
        let ghost scores_seen: Seq<Option<u32>> = Seq::empty();
        let commands = if self.query.as_str().is_empty() {
            idle_order(recent)
        } else {
            let all = Command::all();
            let mut scores: Vec<Option<u32>> = Vec::new();
            let mut k: usize = 0;
            while k < all.len()
                invariant
                    k <= all@.len() == COMMAND_COUNT,
                    pattern@ == self@.query,
                    self@ == old(self)@,
                    self@.query.len() <= MAX_QUERY,
                    scores@.len() == k,
                    all@ == all_commands(),
                    forall|m: int| 0 <= m < k ==> #[trigger] scores@[m] == fuzzy_score(self@.query, all_commands()[m].spec_title()),
                decreases all@.len() - k,
            {
                proof {
                    lemma_title_len(all@[k as int]);
                }
                let score = self.fuzzy.score(&pattern, all[k].title());
                scores.push(score);
                k += 1;
            }
            proof {
                scores_seen = scores@;
            }
            rank_scored_commands(&scores, recent)
        };
        let mut rows: Vec<Row> = Vec::new();
        let mut m: usize = 0;
        while m < commands.len()
            invariant
                m <= commands@.len(),
                rows_view(rows@) == command_rows(commands@.take(m as int)),
            decreases commands@.len() - m,
        {
            let ghost before = rows@;
            rows.push(Row::Command(commands[m]));
            assert(commands@.take(m + 1) =~= commands@.take(m as int).push(commands@[m as int]));
            assert(rows_view(rows@) =~= rows_view(before).push(rows@.last()@));
            assert(rows_view(rows@) =~= command_rows(commands@.take(m + 1)));
            m += 1;
        }
        assert(commands@.take(commands@.len() as int) =~= commands@);
        self.rows = rows;
        self.clamp();
        proof {
            if old(self)@.query.len() > 0 {
                assert(scores_seen =~= command_scores(old(self)@.query));
            }
        }
    }
}



/// Whether the picker offers entry `e` for `query`.
pub open spec fn offered(e: FileEntry, query: Seq<char>) -> bool {
    e.is_dir && !hidden(e.display@, query)
}

impl Palette {
    /// Ranks vault entries by name.
    pub fn rank_files(&mut self, entries: &[FileEntry], indexing: bool)
        requires
            old(self)@.query.len() <= MAX_QUERY,
            forall|k: int| 0 <= k < entries@.len() ==> (#[trigger] entries@[k]).display@.len() <= u32::MAX,
        ensures
            final(self)@ == with_rows(
                old(self)@,
                or_note(
                    path_rows(entries@, ranked_files(entries@, entry_scores(old(self)@.query, entries@))),
                    files_note(indexing),
                ),
            ),
    {
        let pattern = Fuzzy::pattern(self.query.as_str());
        let mut scores: Vec<Option<u32>> = Vec::new();
        let mut k: usize = 0;
        while k < entries.len()
            invariant
                k <= entries@.len(),
                pattern@ == self@.query,
                self@ == old(self)@,
                self@.query.len() <= MAX_QUERY,
                forall|m: int| 0 <= m < entries@.len() ==> (#[trigger] entries@[m]).display@.len() <= u32::MAX,
                scores@.len() == k,
                forall|m: int| 0 <= m < k ==> #[trigger] scores@[m] == fuzzy_score(self@.query, entries@[m].display@),
            decreases entries@.len() - k,
        {
            let score = self.fuzzy.score(&pattern, entries[k].display.as_str());
            scores.push(score);
            k += 1;
        }
        let order = rank_scored_files(entries, &scores);
        let mut rows: Vec<Row> = Vec::new();
        let mut m: usize = 0;
        while m < order.len()
            invariant
                m <= order@.len(),
                forall|a: int| 0 <= a < order@.len() ==> #[trigger] order@[a] < entries@.len(),
                rows_view(rows@) == path_rows(entries@, order@.take(m as int)),
            decreases order@.len() - m,
        {
            let e = &entries[order[m]];
            let ghost before = rows@;
            rows.push(Row::Path { path: e.path.clone(), display: e.display.clone(), is_dir: e.is_dir });
            assert(order@.take(m + 1) =~= order@.take(m as int).push(order@[m as int]));
            assert(rows_view(rows@) =~= rows_view(before).push(rows@.last()@));
            assert(rows_view(rows@) =~= path_rows(entries@, order@.take(m + 1)));
            m += 1;
        }
        assert(order@.take(order@.len() as int) =~= order@);
        if rows.len() == 0 {
            let note = if indexing {
                "indexing\u{2026}".to_owned()
            } else {
                "no match".to_owned()
            };
            rows.push(Row::Note(note));
            assert(rows_view(rows@) =~= seq![RowView::Note(files_note(indexing))]);
        }
        self.rows = rows;
        self.clamp();
        assert(scores@ =~= entry_scores(old(self)@.query, entries@));
    }

    /// Lists the folders of `listing`, the entries inside `browse`, filtered
    /// by the query. Reading the folder is the caller's part.
    pub fn rank_folders(&mut self, listing: &[FileEntry])
        requires
            old(self)@.query.len() <= MAX_QUERY,
            forall|k: int| 0 <= k < listing@.len() ==> (#[trigger] listing@[k]).display@.len() <= u32::MAX,
        ensures
            final(self)@ == with_rows(
                old(self)@,
                folder_rows(
                    old(self)@.browse,
                    listing@,
                    ranked_folders(listing@, old(self)@.query, folder_entry_scores(old(self)@.query, listing@)),
                ),
            ),
    {
        let pattern = Fuzzy::pattern(self.query.as_str());
        let q = chars_of(self.query.as_str());
        let dot_query = q.len() > 0 && q[0] == '.';
        let mut scores: Vec<Option<u32>> = Vec::new();
        let mut k: usize = 0;
        while k < listing.len()
            invariant
                k <= listing@.len(),
                pattern@ == self@.query,
                q@ == self@.query,
                dot_query == (q@.len() > 0 && q@[0] == '.'),
                self@ == old(self)@,
                self@.query.len() <= MAX_QUERY,
                forall|m: int| 0 <= m < listing@.len() ==> (#[trigger] listing@[m]).display@.len() <= u32::MAX,
                scores@.len() == k,
                forall|m: int| 0 <= m < k ==> #[trigger] scores@[m] == (if offered(listing@[m], self@.query) {
                    fuzzy_score(self@.query, listing@[m].display@)
                } else {
                    None
                }),
            decreases listing@.len() - k,
        {
            let e = &listing[k];
            let name = chars_of(e.display.as_str());
            let hide = name.len() > 0 && name[0] == '.' && !dot_query;
            if e.is_dir && !hide {
                let score = self.fuzzy.score(&pattern, e.display.as_str());
                scores.push(score);
            } else {
                scores.push(None);
            }
            k += 1;
        }
        let order = rank_scored_folders(listing, self.query.as_str(), &scores);
        let mut rows: Vec<Row> = Vec::new();
        rows.push(Row::UseFolder(self.browse.clone()));
        match parent(self.browse.as_str()) {
            Some(p) => {
                rows.push(Row::Folder { path: p, label: "..".to_owned() });
            },
            None => {},
        }
        let ghost head = rows_view(rows@);
        proof {
            assert(head =~= seq![RowView::UseFolder(old(self)@.browse)] + match path_parent(old(self)@.browse) {
                Some(p) => seq![RowView::Folder { path: p, label: ".."@ }],
                None => Seq::<RowView>::empty(),
            });
        }
        let mut m: usize = 0;
        while m < order.len()
            invariant
                m <= order@.len(),
                forall|a: int| 0 <= a < order@.len() ==> #[trigger] order@[a] < listing@.len(),
                rows_view(rows@) == head + order@.take(m as int).map_values(
                    |i: usize| RowView::Folder { path: listing@[i as int].path@, label: name_or_path(listing@[i as int].path@) },
                ),
            decreases order@.len() - m,
        {
            let e = &listing[order[m]];
            let label = name_of(e.path.as_str());
            let ghost before = rows@;
            rows.push(Row::Folder { path: e.path.clone(), label });
            assert(order@.take(m + 1) =~= order@.take(m as int).push(order@[m as int]));
            assert(rows_view(rows@) =~= rows_view(before).push(rows@.last()@));
            assert(rows_view(rows@) =~= head + order@.take(m + 1).map_values(
                |i: usize| RowView::Folder { path: listing@[i as int].path@, label: name_or_path(listing@[i as int].path@) },
            ));
            m += 1;
        }
        assert(order@.take(order@.len() as int) =~= order@);
        self.rows = rows;
        self.clamp();
        assert(scores@ =~= folder_entry_scores(old(self)@.query, listing@));
    }
}



// ------------------------------------------------------------------- paths

/// `text` cut to `max_chars` characters by dropping its head, marked by an
/// ellipsis: the tail of a path is the part that identifies it.
pub open spec fn elided_left(text: Seq<char>, max_chars: nat) -> Seq<char> {
    if text.len() <= max_chars {
        text
    } else {
        let skip = text.len() - max_chars + 1;
        seq!['\u{2026}'] + if skip >= text.len() {
            Seq::empty()
        } else {
            text.skip(skip)
        }
    }
}

/// Keeps the tail of an over-long path, which is the part that identifies it.
pub fn elide_left(text: &str, max_chars: usize) -> (r: String)
    ensures
        r@ == elided_left(text@, max_chars as nat),
{
    let v = chars_of(text);
    let count = v.len();
    if count <= max_chars {
        return text.to_owned();
    }
    let mut r = String::new();
    push_char(&mut r, '\u{2026}');
    if max_chars == 0 {
        assert(r@ =~= seq!['\u{2026}'] + Seq::<char>::empty());
        return r;
    }
    let skip = count - (max_chars - 1);
    let mut i = skip;
    assert(r@ =~= seq!['\u{2026}'] + v@.subrange(skip as int, i as int));
    while i < count
        invariant
            skip <= i <= count,
            v@ == text@,
            count == v@.len(),
            r@ == seq!['\u{2026}'] + v@.subrange(skip as int, i as int),
        decreases count - i,
    {
        push_char(&mut r, v[i]);
        assert(v@.subrange(skip as int, i + 1) =~= v@.subrange(skip as int, i as int).push(v@[i as int]));
        i += 1;
    }
    proof {
        if skip < count {
            assert(v@.subrange(skip as int, count as int) =~= v@.skip(skip as int));
        } else {
            assert(r@ =~= seq!['\u{2026}']);
        }
    }
    r
}

/// `path` with the home folder shown as `~`, so the picker stays readable.
pub open spec fn home_relative(path: Seq<char>, home: Option<Seq<char>>) -> Seq<char> {
    match home {
        Some(h) => if h.len() <= path.len() && path.take(h.len() as int) == h {
            "~"@ + path.skip(h.len() as int)
        } else {
            path
        },
        None => path,
    }
}

/// Shortens the home folder `home` to `~` in `path`. Finding the home
/// folder is the caller's part.
pub fn display_path(path: &str, home: Option<&str>) -> (r: String)
    ensures
        r@ == home_relative(path@, match home {
            Some(h) => Some(h@),
            None => None,
        }),
{
    let h = match home {
        Some(h) => h,
        None => {
            return path.to_owned();
        },
    };
    let p = chars_of(path);
    let hv = chars_of(h);
    if hv.len() > p.len() {
        return path.to_owned();
    }
    let mut i: usize = 0;
    while i < hv.len()
        invariant
            i <= hv.len() <= p.len(),
            hv@ == h@,
            p@ == path@,
            home == Some(h),
            forall|j: int| 0 <= j < i ==> p@[j] == hv@[j],
        decreases hv.len() - i,
    {
        if p[i] != hv[i] {
            assert(p@.take(hv.len() as int)[i as int] != hv@[i as int]);
            assert(p@.take(hv.len() as int) != h@);
            assert(home_relative(path@, Some(h@)) == path@);
            return path.to_owned();
        }
        i += 1;
    }
    assert(p@.take(hv.len() as int) =~= hv@);
    let mut r = String::new();
    push_char(&mut r, '~');
    let mut k = hv.len();
    assert(r@ =~= "~"@ + p@.subrange(hv.len() as int, k as int)) by {
        reveal_strlit("~");
    }
    while k < p.len()
        invariant
            hv.len() <= k <= p.len(),
            p@ == path@,
            r@ == "~"@ + p@.subrange(hv.len() as int, k as int),
        decreases p.len() - k,
    {
        push_char(&mut r, p[k]);
        assert(p@.subrange(hv.len() as int, k + 1) =~= p@.subrange(hv.len() as int, k as int).push(p@[k as int]));
        assert(r@ =~= "~"@ + p@.subrange(hv.len() as int, k + 1));
        k += 1;
    }
    assert(p@.subrange(hv.len() as int, p.len() as int) =~= p@.skip(hv.len() as int));
    r
}


// -------------------------------------------------------------------- laws

/// `fill_missing` keeps what it had and adds everything it was given.
pub proof fn lemma_fill_missing(acc: Seq<Command>, cs: Seq<Command>, c: Command)
    requires
        acc.contains(c) || cs.contains(c),
    ensures
        fill_missing(acc, cs).contains(c),
    decreases cs.len(),
{
    if cs.len() > 0 {
        let a = fill_missing(acc, cs.drop_last());
        if acc.contains(c) || cs.drop_last().contains(c) {
            lemma_fill_missing(acc, cs.drop_last(), c);
        } else {
            let i = choose|i: int| 0 <= i < cs.len() && cs[i] == c;
            if i < cs.len() - 1 {
                assert(cs.drop_last()[i] == c);
            }
            assert(cs.last() == c);
        }
        if !a.contains(cs.last()) {
            if a.contains(c) {
                let i = choose|i: int| 0 <= i < a.len() && a[i] == c;
                assert(a.push(cs.last())[i] == c);
            } else {
                assert(a.push(cs.last())[a.len() as int] == c);
            }
        }
    }
}

/// Every command is in the list.
pub proof fn lemma_all_commands(c: Command)
    ensures
        all_commands().contains(c),
{
    match c {
        Command::FindFile => {
            assert(all_commands()[0] == c);
        },
        Command::SearchContent => {
            assert(all_commands()[1] == c);
        },
        Command::OpenVault => {
            assert(all_commands()[2] == c);
        },
        Command::ReloadFile => {
            assert(all_commands()[3] == c);
        },
        Command::RevealInTree => {
            assert(all_commands()[4] == c);
        },
        Command::CloseTab => {
            assert(all_commands()[5] == c);
        },
        Command::CloseOthers => {
            assert(all_commands()[6] == c);
        },
        Command::CloseAll => {
            assert(all_commands()[7] == c);
        },
        Command::NextTab => {
            assert(all_commands()[8] == c);
        },
        Command::PrevTab => {
            assert(all_commands()[9] == c);
        },
        Command::ToggleTree => {
            assert(all_commands()[10] == c);
        },
        Command::TreeLeft => {
            assert(all_commands()[11] == c);
        },
        Command::TreeRight => {
            assert(all_commands()[12] == c);
        },
        Command::TreeBottom => {
            assert(all_commands()[13] == c);
        },
        Command::ToggleTheme => {
            assert(all_commands()[14] == c);
        },
        Command::IncreaseFont => {
            assert(all_commands()[15] == c);
        },
        Command::DecreaseFont => {
            assert(all_commands()[16] == c);
        },
        Command::ToggleDecorations => {
            assert(all_commands()[17] == c);
        },
        Command::CopyPath => {
            assert(all_commands()[18] == c);
        },
        Command::OpenExternally => {
            assert(all_commands()[19] == c);
        },
        Command::Quit => {
            assert(all_commands()[20] == c);
        },
    }
}

/// An idle palette lists every command: the recent ones first, and every
/// other one stays reachable by scrolling.
pub proof fn law_idle_lists_every_command(recent: Seq<Seq<char>>, c: Command)
    ensures
        idle_commands(recent).contains(c),
{
    lemma_all_commands(c);
    lemma_fill_missing(recent_commands(recent), all_commands(), c);
}

pub proof fn lemma_str_lt_irreflexive(a: Seq<char>)
    ensures
        !str_lt(a, a),
    decreases a.len(),
{
    if a.len() > 0 {
        lemma_str_lt_irreflexive(a.drop_first());
    }
}

pub proof fn lemma_str_lt_transitive(a: Seq<char>, b: Seq<char>, c: Seq<char>)
    requires
        str_lt(a, b),
        str_lt(b, c),
    ensures
        str_lt(a, c),
    decreases a.len(),
{
    if a.len() > 0 && b.len() > 0 && c.len() > 0 && a[0] == b[0] && b[0] == c[0] {
        lemma_str_lt_transitive(a.drop_first(), b.drop_first(), c.drop_first());
    }
}

pub proof fn lemma_str_lt_total(a: Seq<char>, b: Seq<char>)
    ensures
        a == b || str_lt(a, b) || str_lt(b, a),
    decreases a.len(),
{
    if a.len() > 0 && b.len() > 0 && a[0] == b[0] {
        lemma_str_lt_total(a.drop_first(), b.drop_first());
        if a.drop_first() == b.drop_first() {
            assert(a =~= seq![a[0]] + a.drop_first());
            assert(b =~= seq![b[0]] + b.drop_first());
        }
    } else if a.len() > 0 && b.len() > 0 {
        assert(a[0] != b[0]);
    } else if a.len() == 0 && b.len() == 0 {
        assert(a =~= b);
    }
}

pub proof fn lemma_ahead_asymmetric(names: Seq<Seq<char>>, by_name: bool, x: (u64, usize), y: (u64, usize))
    requires
        ahead(names, by_name, x, y),
    ensures
        !ahead(names, by_name, y, x),
{
    if x.0 == y.0 && by_name && str_lt(names[y.1 as int], names[x.1 as int]) {
        lemma_str_lt_transitive(names[x.1 as int], names[y.1 as int], names[x.1 as int]);
        lemma_str_lt_irreflexive(names[x.1 as int]);
    }
}

pub proof fn lemma_not_ahead_transitive(names: Seq<Seq<char>>, by_name: bool, x: (u64, usize), y: (u64, usize), z: (u64, usize))
    requires
        !ahead(names, by_name, x, y),
        !ahead(names, by_name, y, z),
    ensures
        !ahead(names, by_name, x, z),
{
    if ahead(names, by_name, x, z) && x.0 == z.0 {
        let (nx, ny, nz) = (names[x.1 as int], names[y.1 as int], names[z.1 as int]);
        assert(y.0 == x.0);
        lemma_str_lt_total(nx, ny);
        if str_lt(ny, nx) {
            lemma_str_lt_transitive(ny, nx, nz);
        }
    }
}

/// No candidate ranks strictly before one placed ahead of it.
pub open spec fn in_rank_order(names: Seq<Seq<char>>, by_name: bool, s: Seq<(u64, usize)>) -> bool {
    forall|i: int, j: int| 0 <= i < j < s.len() ==> !ahead(names, by_name, #[trigger] s[j], #[trigger] s[i])
}

pub proof fn lemma_insert_in_order(names: Seq<Seq<char>>, by_name: bool, s: Seq<(u64, usize)>, x: (u64, usize))
    requires
        in_rank_order(names, by_name, s),
    ensures
        in_rank_order(names, by_name, insert_ranked(names, by_name, s, x)),
    decreases s.len(),
{
    broadcast use vstd::seq_lib::group_to_multiset_ensures;
    let r = insert_ranked(names, by_name, s, x);
    if s.len() == 0 {
    } else if ahead(names, by_name, x, s.last()) {
        let p = s.drop_last();
        let q = insert_ranked(names, by_name, p, x);
        assert(in_rank_order(names, by_name, p)) by {
            assert forall|i: int, j: int| 0 <= i < j < p.len() implies !ahead(names, by_name, #[trigger] p[j], #[trigger] p[i]) by {
                assert(p[i] == s[i] && p[j] == s[j]);
            }
        }
        lemma_insert_in_order(names, by_name, p, x);
        lemma_insert_ranked_multiset(names, by_name, p, x);
        lemma_ahead_asymmetric(names, by_name, x, s.last());
        assert forall|i: int, j: int| 0 <= i < j < r.len() implies !ahead(names, by_name, #[trigger] r[j], #[trigger] r[i]) by {
            if j == q.len() {
                let e = q[i];
                assert(q.contains(e));
                assert(q.to_multiset().count(e) > 0);
                assert(p.push(x).to_multiset() =~= p.to_multiset().insert(x));
                assert(p.push(x).to_multiset().count(e) > 0);
                assert(p.push(x).contains(e));
                let k = choose|k: int| 0 <= k < p.push(x).len() && p.push(x)[k] == e;
                if k < p.len() {
                    assert(s[k] == e);
                    assert(s[s.len() - 1] == s.last());
                }
            } else {
                assert(r[i] == q[i] && r[j] == q[j]);
            }
        }
    } else {
        assert forall|i: int, j: int| 0 <= i < j < r.len() implies !ahead(names, by_name, #[trigger] r[j], #[trigger] r[i]) by {
            if j == s.len() {
                if i < s.len() - 1 {
                    assert(s[s.len() - 1] == s.last());
                    lemma_not_ahead_transitive(names, by_name, x, s.last(), s[i]);
                }
            } else {
                assert(r[i] == s[i] && r[j] == s[j]);
            }
        }
    }
}

/// Ranking puts candidates in order: best first, and nothing after one
/// that it should precede.
pub proof fn law_ranked_in_order(names: Seq<Seq<char>>, by_name: bool, s: Seq<(u64, usize)>)
    ensures
        in_rank_order(names, by_name, ranked(names, by_name, s)),
    decreases s.len(),
{
    if s.len() > 0 {
        law_ranked_in_order(names, by_name, s.drop_last());
        lemma_insert_in_order(names, by_name, ranked(names, by_name, s.drop_last()), s.last());
    }
}

} // verus!
